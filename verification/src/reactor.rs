//! The reactor: the subscription index mapping `(variable, event)` pairs to
//! the propagators that must be reconsidered when such a change is
//! observed. A change of kind `e` wakes every propagator subscribed to the
//! same variable with a kind of index at most `e`'s.

use vstd::prelude::*;

use crate::event::FdEvent;

verus! {

/// One subscription entry `(variable index, event index, propagator index)`.
pub open spec fn entry_is(t: (usize, usize, usize), v: int, e: int, p: int) -> bool {
    t.0 == v && t.1 == e && t.2 == p
}

/// Subscription index, kept as a duplicate-free list of
/// `(variable, event, propagator)` entries.
pub struct Reactor {
    pub subs: Vec<(usize, usize, usize)>,
    pub num_vars: usize,
    pub num_events: usize,
}

impl Reactor {
    pub open spec fn wf(self) -> bool {
        &&& forall|k: int|
            0 <= k < self.subs@.len() ==> (#[trigger] self.subs@[k]).0 < self.num_vars
        &&& forall|k: int|
            0 <= k < self.subs@.len() ==> (#[trigger] self.subs@[k]).1 < self.num_events
        &&& forall|k1: int, k2: int|
            0 <= k1 < k2 < self.subs@.len() ==> self.subs@[k1] != self.subs@[k2]
    }

    /// Propagator `p` is subscribed to `(v, e)` and has not been unlinked.
    pub open spec fn subscribed(self, v: int, e: int, p: int) -> bool {
        exists|k: int| 0 <= k < self.subs@.len() && entry_is(#[trigger] self.subs@[k], v, e, p)
    }

    /// An observed change of kind index `ev` on variable `v` wakes `p`.
    pub open spec fn wakes(self, v: int, ev: int, p: int) -> bool {
        exists|k: int|
            0 <= k < self.subs@.len() && (#[trigger] self.subs@[k]).0 == v && self.subs@[k].1 <= ev
                && self.subs@[k].2 == p
    }

    /// `wakes` is: subscribed under some kind at most as strong.
    pub proof fn lemma_wakes_subscribed(self, v: int, ev: int, p: int)
        ensures
            self.wakes(v, ev, p) <==> exists|e: int|
                0 <= e <= ev && #[trigger] self.subscribed(v, e, p),
    {
        if self.wakes(v, ev, p) {
            let k = choose|k: int|
                0 <= k < self.subs@.len() && (#[trigger] self.subs@[k]).0 == v && self.subs@[k].1
                    <= ev && self.subs@[k].2 == p;
            let e = self.subs@[k].1 as int;
            assert(entry_is(self.subs@[k], v, e, p));
            assert(0 <= e <= ev && self.subscribed(v, e, p));
        }
        if exists|e: int| 0 <= e <= ev && #[trigger] self.subscribed(v, e, p) {
            let e = choose|e: int| 0 <= e <= ev && #[trigger] self.subscribed(v, e, p);
            let k = choose|k: int|
                0 <= k < self.subs@.len() && entry_is(#[trigger] self.subs@[k], v, e, p);
            assert(self.subs@[k].0 == v && self.subs@[k].1 <= ev && self.subs@[k].2 == p);
        }
    }

    /// An empty subscription structure sized for `num_vars` variables and
    /// `num_events` event kinds.
    pub fn new(num_vars: usize, num_events: usize) -> (r: Reactor)
        ensures
            r.wf(),
            r.num_vars == num_vars,
            r.num_events == num_events,
            r.subs@.len() == 0,
            forall|v: int, e: int, p: int| !r.subscribed(v, e, p),
    {
        Reactor { subs: Vec::new(), num_vars, num_events }
    }

    /// Whether the exact entry `(v, e, p)` is present.
    fn mem(&self, v: usize, e: usize, p: usize) -> (r: bool)
        ensures
            r == self.subscribed(v as int, e as int, p as int),
    {
        let mut k: usize = 0;
        while k < self.subs.len()
            invariant
                k <= self.subs@.len(),
                forall|j: int| 0 <= j < k ==> !entry_is(#[trigger] self.subs@[j], v as int, e as int, p as int),
            decreases self.subs@.len() - k,
        {
            let (ev, ee, ep) = self.subs[k];
            if ev == v && ee == e && ep == p {
                assert(entry_is(self.subs@[k as int], v as int, e as int, p as int));
                return true;
            }
            k += 1;
        }
        false
    }

    /// Subscribes `p` to `(v, ev)`; idempotent per entry.
    pub fn subscribe(&mut self, v: usize, ev: FdEvent, p: usize)
        requires
            old(self).wf(),
            v < old(self).num_vars,
            ev.idx() < old(self).num_events,
        ensures
            final(self).wf(),
            final(self).num_vars == old(self).num_vars,
            final(self).num_events == old(self).num_events,
            forall|v2: int, e2: int, q: int|
                final(self).subscribed(v2, e2, q) <==> (old(self).subscribed(v2, e2, q) || (v2
                    == v && e2 == ev.idx() && q == p)),
            final(self).subs@.len() <= old(self).subs@.len() + 1,
    {
        let e = ev.index();
        if !self.mem(v, e, p) {
            self.subs.push((v, e, p));
            proof {
                assert forall|k: int| 0 <= k < old(self).subs@.len() implies old(self).subs@[k]
                    != (v, e, p) by {
                    if old(self).subs@[k] == (v, e, p) {
                        assert(entry_is(old(self).subs@[k], v as int, e as int, p as int));
                    }
                }
                assert forall|v2: int, e2: int, q: int|
                    final(self).subscribed(v2, e2, q) <==> (old(self).subscribed(v2, e2, q) || (
                    v2 == v && e2 == ev.idx() && q == p)) by {
                    let n = old(self).subs@.len() as int;
                    if old(self).subscribed(v2, e2, q) {
                        let k = choose|k: int|
                            0 <= k < n && entry_is(#[trigger] old(self).subs@[k], v2, e2, q);
                        assert(entry_is(self.subs@[k], v2, e2, q));
                    }
                    if v2 == v && e2 == ev.idx() && q == p {
                        assert(entry_is(self.subs@[n], v2, e2, q));
                    }
                    if self.subscribed(v2, e2, q) {
                        let k = choose|k: int|
                            0 <= k < n + 1 && entry_is(#[trigger] self.subs@[k], v2, e2, q);
                        if k < n {
                            assert(entry_is(old(self).subs@[k], v2, e2, q));
                        }
                    }
                }
            }
        }
    }

    /// Removes the single entry `(v, ev, p)`, if present.
    pub fn unsubscribe(&mut self, v: usize, ev: FdEvent, p: usize)
        requires
            old(self).wf(),
        ensures
            final(self).wf(),
            final(self).num_vars == old(self).num_vars,
            final(self).num_events == old(self).num_events,
            forall|v2: int, e2: int, q: int|
                final(self).subscribed(v2, e2, q) <==> (old(self).subscribed(v2, e2, q) && !(v2
                    == v && e2 == ev.idx() && q == p)),
            final(self).subs@.len() <= old(self).subs@.len(),
    {
        let e = ev.index();
        let mut k: usize = 0;
        while k < self.subs.len()
            invariant
                k <= self.subs@.len(),
                self.subs@ == old(self).subs@,
                self.num_vars == old(self).num_vars,
                self.num_events == old(self).num_events,
                forall|j: int| 0 <= j < k ==> !entry_is(#[trigger] self.subs@[j], v as int, e as int, p as int),
            decreases self.subs@.len() - k,
        {
            let (ev2, ee2, ep2) = self.subs[k];
            if ev2 == v && ee2 == e && ep2 == p {
                self.subs.remove(k);
                proof {
                    let pre = old(self).subs@;
                    assert forall|j1: int, j2: int|
                        0 <= j1 < j2 < self.subs@.len() implies self.subs@[j1] != self.subs@[j2] by {
                        if j2 < k {
                            assert(pre[j1] != pre[j2]);
                        } else if j1 >= k {
                            assert(pre[j1 + 1] != pre[j2 + 1]);
                        } else {
                            assert(pre[j1] != pre[j2 + 1]);
                        }
                    }
                    assert forall|v2: int, e2: int, q: int|
                        final(self).subscribed(v2, e2, q) <==> (old(self).subscribed(v2, e2, q)
                            && !(v2 == v && e2 == ev.idx() && q == p)) by {
                        if self.subscribed(v2, e2, q) {
                            let j = choose|j: int|
                                0 <= j < self.subs@.len() && entry_is(
                                    #[trigger] self.subs@[j],
                                    v2,
                                    e2,
                                    q,
                                );
                            if j < k {
                                assert(entry_is(pre[j], v2, e2, q));
                            } else {
                                assert(entry_is(pre[j + 1], v2, e2, q));
                            }
                        }
                        if old(self).subscribed(v2, e2, q) && !(v2 == v && e2 == ev.idx() && q
                            == p) {
                            let j = choose|j: int|
                                0 <= j < pre.len() && entry_is(#[trigger] pre[j], v2, e2, q);
                            if j < k {
                                assert(entry_is(self.subs@[j], v2, e2, q));
                            } else if j > k {
                                assert(entry_is(self.subs@[j - 1], v2, e2, q));
                            }
                        }
                    }
                }
                return ;
            }
            k += 1;
        }
        proof {
            assert forall|v2: int, e2: int, q: int|
                final(self).subscribed(v2, e2, q) <==> (old(self).subscribed(v2, e2, q) && !(v2
                    == v && e2 == ev.idx() && q == p)) by {
                if old(self).subscribed(v2, e2, q) && v2 == v && e2 == ev.idx() && q == p {
                    let j = choose|j: int|
                        0 <= j < self.subs@.len() && entry_is(#[trigger] self.subs@[j], v2, e2, q);
                }
            }
        }
    }

    /// Every propagator subscribed to `(v, e')` for any kind `e'` at most
    /// as strong as `ev`, each index at most once.
    pub fn react(&self, v: usize, ev: FdEvent) -> (r: Vec<usize>)
        ensures
            forall|q: usize| r@.contains(q) <==> self.wakes(v as int, ev.idx(), q as int),
            forall|k1: int, k2: int| 0 <= k1 < k2 < r@.len() ==> r@[k1] != r@[k2],
    {
        let e = ev.index();
        let mut r: Vec<usize> = Vec::new();
        let mut k: usize = 0;
        while k < self.subs.len()
            invariant
                k <= self.subs@.len(),
                forall|q: usize|
                    r@.contains(q) <==> exists|j: int|
                        0 <= j < k && (#[trigger] self.subs@[j]).0 == v && self.subs@[j].1 <= e
                            && self.subs@[j].2 == q,
                forall|k1: int, k2: int| 0 <= k1 < k2 < r@.len() ==> r@[k1] != r@[k2],
            decreases self.subs@.len() - k,
        {
            let (sv, se, sp) = self.subs[k];
            let ghost pre = r@;
            if sv == v && se <= e {
                if !contains_usize(&r, sp) {
                    r.push(sp);
                    proof {
                        assert forall|q: usize| r@.contains(q) <==> (pre.contains(q) || q
                            == sp) by {
                            if pre.contains(q) {
                                let i = choose|i: int| 0 <= i < pre.len() && pre[i] == q;
                                assert(r@[i] == q);
                            }
                            if q == sp {
                                assert(r@[pre.len() as int] == q);
                            }
                            if r@.contains(q) {
                                let i = choose|i: int| 0 <= i < r@.len() && r@[i] == q;
                                if i < pre.len() {
                                    assert(pre[i] == q);
                                }
                            }
                        }
                    }
                }
            }
            proof {
                assert forall|q: usize| r@.contains(q) <==> exists|j: int|
                    0 <= j < k + 1 && (#[trigger] self.subs@[j]).0 == v && self.subs@[j].1 <= e
                        && self.subs@[j].2 == q by {
                    if r@.contains(q) {
                        if pre.contains(q) {
                            let j = choose|j: int|
                                0 <= j < k && (#[trigger] self.subs@[j]).0 == v && self.subs@[j].1
                                    <= e && self.subs@[j].2 == q;
                            assert(0 <= j < k + 1 && self.subs@[j].0 == v && self.subs@[j].1 <= e
                                && self.subs@[j].2 == q);
                        } else {
                            assert(q == sp);
                            assert(self.subs@[k as int].0 == v && self.subs@[k as int].1 <= e
                                && self.subs@[k as int].2 == q);
                        }
                    }
                    if exists|j: int|
                        0 <= j < k + 1 && (#[trigger] self.subs@[j]).0 == v && self.subs@[j].1 <= e
                            && self.subs@[j].2 == q {
                        let j = choose|j: int|
                            0 <= j < k + 1 && (#[trigger] self.subs@[j]).0 == v && self.subs@[j].1
                                <= e && self.subs@[j].2 == q;
                        if j < k {
                            assert(pre.contains(q));
                            assert(r@.contains(q) || pre == r@);
                        } else {
                            assert(q == sp);
                            assert(r@.contains(q));
                        }
                    }
                }
            }
            k += 1;
        }
        r
    }

    /// No subscriptions remain.
    pub fn is_empty(&self) -> (r: bool)
        ensures
            r == (self.subs@.len() == 0),
            r ==> forall|v: int, e: int, p: int| !self.subscribed(v, e, p),
    {
        self.subs.len() == 0
    }
}

/// Linear membership test.
fn contains_usize(v: &Vec<usize>, x: usize) -> (r: bool)
    ensures
        r == v@.contains(x),
{
    let mut k: usize = 0;
    while k < v.len()
        invariant
            k <= v@.len(),
            forall|j: int| 0 <= j < k ==> v@[j] != x,
        decreases v@.len() - k,
    {
        if v[k] == x {
            return true;
        }
        k += 1;
    }
    false
}

/// Wake-up law: after subscribing `p` to `(v, e)`, a change of kind `e2` on
/// `v` wakes `p` iff `e2` is at least as strong as `e`, or an earlier
/// subscription already woke it; subscriptions of other pairs are
/// unaffected.
pub proof fn lemma_react_after_subscribe(r0: Reactor, r1: Reactor, v: int, e: int, p: int, e2: int)
    requires
        0 <= e,
        forall|v2: int, e3: int, q: int|
            r1.subscribed(v2, e3, q) <==> (r0.subscribed(v2, e3, q) || (v2 == v && e3 == e && q
                == p)),
    ensures
        r1.wakes(v, e2, p) <==> (e <= e2 || r0.wakes(v, e2, p)),
        forall|v2: int, e3: int, q: int|
            !(v2 == v && q == p) ==> (#[trigger] r1.wakes(v2, e3, q) <==> r0.wakes(v2, e3, q)),
{
    assert forall|v2: int, q: int, e3: int| true implies (#[trigger] r1.wakes(v2, e3, q) <==> (
    r0.wakes(v2, e3, q) || (v2 == v && q == p && e <= e3))) by {
        r0.lemma_wakes_subscribed(v2, e3, q);
        r1.lemma_wakes_subscribed(v2, e3, q);
        if r0.wakes(v2, e3, q) {
            let ee = choose|ee: int| 0 <= ee <= e3 && #[trigger] r0.subscribed(v2, ee, q);
            assert(r1.subscribed(v2, ee, q));
        }
        if v2 == v && q == p && e <= e3 {
            assert(r1.subscribed(v, e, p));
        }
        if r1.wakes(v2, e3, q) {
            let ee = choose|ee: int| 0 <= ee <= e3 && #[trigger] r1.subscribed(v2, ee, q);
        }
    }
    r0.lemma_wakes_subscribed(v, e2, p);
    r1.lemma_wakes_subscribed(v, e2, p);
}

} // verus!
