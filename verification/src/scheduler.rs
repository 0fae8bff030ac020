//! The scheduler: a deduplicated worklist of propagator indices awaiting
//! reconsideration. `schedule` is idempotent, `unschedule` is constant-time
//! (it clears a mark; stale queue entries are skipped lazily by `pop`).

use vstd::prelude::*;

verus! {

pub struct Scheduler {
    pub queue: Vec<usize>,
    pub marked: Vec<bool>,
}

impl Scheduler {
    /// Number of propagator indices the scheduler was sized for.
    pub open spec fn capacity(self) -> int {
        self.marked@.len() as int
    }

    /// Propagator `p` awaits reconsideration.
    pub open spec fn scheduled(self, p: int) -> bool {
        0 <= p < self.marked@.len() && self.marked@[p]
    }

    pub open spec fn wf(self) -> bool {
        &&& forall|k: int|
            0 <= k < self.queue@.len() ==> (#[trigger] self.queue@[k]) < self.marked@.len()
        &&& forall|p: int|
            0 <= p < self.marked@.len() && (#[trigger] self.marked@[p]) ==> exists|i: int|
                0 <= i < self.queue@.len() && self.queue@[i] == p
    }

    /// An empty worklist sized for `n` propagators.
    pub fn new(n: usize) -> (s: Scheduler)
        ensures
            s.wf(),
            s.capacity() == n,
            forall|p: int| !s.scheduled(p),
            s.queue@.len() == 0,
    {
        let mut marked: Vec<bool> = Vec::new();
        let mut i: usize = 0;
        while i < n
            invariant
                i <= n,
                marked@.len() == i,
                forall|j: int| 0 <= j < i ==> !marked@[j],
            decreases n - i,
        {
            marked.push(false);
            i += 1;
        }
        Scheduler { queue: Vec::new(), marked }
    }

    /// Inserts `p` if absent.
    pub fn schedule(&mut self, p: usize)
        requires
            old(self).wf(),
            p < old(self).capacity(),
        ensures
            final(self).wf(),
            final(self).capacity() == old(self).capacity(),
            forall|q: int|
                final(self).scheduled(q) == (old(self).scheduled(q) || q == p),
            final(self).queue@.len() <= old(self).queue@.len() + 1,
    {
        if !self.marked[p] {
            self.marked.set(p, true);
            self.queue.push(p);
            proof {
                assert forall|q: int|
                    0 <= q < self.marked@.len() && (#[trigger] self.marked@[q]) implies exists|
                    i: int,
                |
                    0 <= i < self.queue@.len() && self.queue@[i] == q by {
                    if q != p {
                        let i = choose|i: int|
                            0 <= i < old(self).queue@.len() && old(self).queue@[i] == q;
                        assert(self.queue@[i] == q);
                    } else {
                        assert(self.queue@[self.queue@.len() - 1] == q);
                    }
                }
            }
        }
    }

    /// Removes `p` if present.
    pub fn unschedule(&mut self, p: usize)
        requires
            old(self).wf(),
            p < old(self).capacity(),
        ensures
            final(self).wf(),
            final(self).capacity() == old(self).capacity(),
            forall|q: int|
                final(self).scheduled(q) == (old(self).scheduled(q) && q != p),
            final(self).queue@.len() == old(self).queue@.len(),
    {
        self.marked.set(p, false);
    }

    /// Hands out some scheduled index and unschedules it, or reports that
    /// none is left.
    pub fn pop(&mut self) -> (r: Option<usize>)
        requires
            old(self).wf(),
        ensures
            final(self).wf(),
            final(self).capacity() == old(self).capacity(),
            match r {
                Some(p) => {
                    &&& old(self).scheduled(p as int)
                    &&& !final(self).scheduled(p as int)
                    &&& forall|q: int|
                        q != p ==> final(self).scheduled(q) == old(self).scheduled(q)
                    &&& final(self).queue@.len() < old(self).queue@.len()
                },
                None => {
                    &&& forall|q: int| !old(self).scheduled(q)
                    &&& forall|q: int| !final(self).scheduled(q)
                    &&& final(self).queue@.len() <= old(self).queue@.len()
                },
            },
    {
        while self.queue.len() > 0
            invariant
                self.wf(),
                self.marked@ == old(self).marked@,
                self.queue@.len() <= old(self).queue@.len(),
            decreases self.queue@.len(),
        {
            let ghost pre = self.queue@;
            let x = match self.queue.pop() {
                Some(x) => x,
                None => {
                    proof {
                        assert(false);
                    }
                    0
                },
            };
            proof {
                assert forall|q: int|
                    0 <= q < self.marked@.len() && (#[trigger] self.marked@[q]) && q != x implies
                    exists|i: int| 0 <= i < self.queue@.len() && self.queue@[i] == q by {
                    let i = choose|i: int| 0 <= i < pre.len() && pre[i] == q;
                    assert(i < pre.len() - 1);
                    assert(self.queue@[i] == q);
                }
            }
            if self.marked[x] {
                self.marked.set(x, false);
                return Some(x);
            }
        }
        proof {
            assert forall|q: int| !old(self).scheduled(q) by {
                if 0 <= q < self.marked@.len() && self.marked@[q] {
                    let i = choose|i: int| 0 <= i < self.queue@.len() && self.queue@[i] == q;
                }
            }
        }
        None
    }
}

} // verus!
