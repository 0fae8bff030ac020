//! Read/update views over variables: identity (direct access), constant
//! (read-only, empty dependency set, unit domain) and addition `X + c`
//! (reads the shifted domain; an update inverts the shift and delegates to
//! the underlying variable). Each view reports which variable-events it
//! forwards.

use vstd::prelude::*;

use crate::domain::Dom;
use crate::event::FdEvent;
use crate::vstore::VStore;

verus! {

#[derive(Clone, Copy, Debug, PartialEq, Eq, Structural)]
pub enum FdView {
    /// Direct access to a variable.
    Identity { var: usize },
    /// A constant, read as the unit domain `[value, value]`.
    Constant { value: i32 },
    /// The affine view `X + offset`.
    Addition { var: usize, offset: i32 },
}

impl FdView {
    pub fn identity(var: usize) -> (t: FdView)
        ensures
            t == (FdView::Identity { var }),
    {
        FdView::Identity { var }
    }

    pub fn constant(value: i32) -> (t: FdView)
        ensures
            t == (FdView::Constant { value }),
    {
        FdView::Constant { value }
    }

    pub fn addition(var: usize, offset: i32) -> (t: FdView)
        ensures
            t == (FdView::Addition { var, offset }),
    {
        FdView::Addition { var, offset }
    }

    /// The variable the view forwards to, if any.
    pub open spec fn the_var(self) -> Option<int> {
        match self {
            FdView::Identity { var } => Some(var as int),
            FdView::Constant { .. } => None,
            FdView::Addition { var, .. } => Some(var as int),
        }
    }

    /// Every forwarded variable lies inside a store of `n` variables.
    pub open spec fn deps_ok(self, n: int) -> bool {
        match self.the_var() {
            Some(v) => v < n,
            None => true,
        }
    }

    /// Value of the view under an assignment of values to variables.
    pub open spec fn val(self, a: Seq<int>) -> int {
        match self {
            FdView::Identity { var } => a[var as int],
            FdView::Constant { value } => value as int,
            FdView::Addition { var, offset } => a[var as int] + offset,
        }
    }

    /// The domain the view reads over the given variable domains.
    pub open spec fn view_dom(self, doms: Seq<Dom>) -> Dom {
        match self {
            FdView::Identity { var } => doms[var as int],
            FdView::Constant { value } => Dom { lo: value as i64, hi: value as i64 },
            FdView::Addition { var, offset } => {
                let d = doms[var as int];
                if d.spec_is_empty() {
                    Dom { lo: 1, hi: 0 }
                } else {
                    Dom { lo: (d.lo + offset) as i64, hi: (d.hi + offset) as i64 }
                }
            },
        }
    }

    /// The variable domains after writing `d` through the view.
    pub open spec fn update_doms(self, doms: Seq<Dom>, d: Dom) -> Seq<Dom> {
        match self {
            FdView::Identity { var } => doms.update(var as int, d),
            FdView::Constant { .. } => doms,
            FdView::Addition { var, offset } => {
                if d.spec_is_empty() {
                    doms.update(var as int, Dom { lo: 1, hi: 0 })
                } else {
                    doms.update(
                        var as int,
                        Dom { lo: (d.lo - offset) as i64, hi: (d.hi - offset) as i64 },
                    )
                }
            },
        }
    }

    /// Reads the view's domain.
    pub fn read(&self, store: &VStore) -> (r: Dom)
        requires
            store.wf(),
            self.deps_ok(store.doms@.len() as int),
        ensures
            r == self.view_dom(store.doms@),
            r.wf(),
            -0x1_0000_0000 <= r.lo <= 0x1_0000_0000,
            -0x1_0000_0000 <= r.hi <= 0x1_0000_0000,
    {
        match self {
            FdView::Identity { var } => store.read(*var),
            FdView::Constant { value } => Dom::singleton(*value as i64),
            FdView::Addition { var, offset } => {
                let d = store.read(*var);
                if d.is_empty() {
                    Dom::empty()
                } else {
                    Dom { lo: d.lower() + *offset as i64, hi: d.upper() + *offset as i64 }
                }
            },
        }
    }

    /// Writes `d` through the view, monotonically: `d` must be a subset of
    /// what the view currently reads. Returns `false` iff `d` is empty.
    pub fn update(&self, store: &mut VStore, d: Dom) -> (r: bool)
        requires
            old(store).wf(),
            self.deps_ok(old(store).doms@.len() as int),
            d.wf(),
            d.subset_of(self.view_dom(old(store).doms@)),
        ensures
            final(store).wf(),
            final(store).doms@ == self.update_doms(old(store).doms@, d),
            final(store).doms@.len() == old(store).doms@.len(),
            final(store).base@ == old(store).base@,
            r == !d.spec_is_empty(),
            self is Constant ==> final(store).delta@ == old(store).delta@,
            !(self is Constant) ==> {
                let v = self.the_var()->Some_0;
                let w = final(store).doms@[v];
                if d.spec_is_empty() || w == old(store).doms@[v] {
                    final(store).delta@ == old(store).delta@
                } else {
                    let ev = crate::vstore::change_event(old(store).doms@[v], w);
                    ||| (forall|k: int|
                        0 <= k < old(store).delta@.len() ==> (#[trigger] old(store).delta@[k]).0
                            != v) && final(store).delta@ == old(store).delta@.push(
                        ((v as usize), ev),
                    )
                    ||| exists|k: int|
                        0 <= k < old(store).delta@.len() && (#[trigger] old(store).delta@[k]).0
                            == v && final(store).delta@ == old(store).delta@.update(
                            k,
                            ((v as usize), old(store).delta@[k].1.spec_join(ev)),
                        )
                }
            },
    {
        match self {
            FdView::Identity { var } => store.update(*var, d),
            FdView::Constant { .. } => !d.is_empty(),
            FdView::Addition { var, offset } => {
                if d.is_empty() {
                    store.update(*var, Dom::empty())
                } else {
                    let nd = Dom { lo: d.lower() - *offset as i64, hi: d.upper() - *offset as i64 };
                    store.update(*var, nd)
                }
            },
        }
    }

    /// The `(variable, event)` pairs the view forwards for a subscription
    /// of kind `ev`.
    pub open spec fn deps(self, ev: FdEvent) -> Seq<(usize, FdEvent)> {
        match self {
            FdView::Identity { var } => seq![(var, ev)],
            FdView::Constant { .. } => Seq::empty(),
            FdView::Addition { var, .. } => seq![(var, ev)],
        }
    }

    /// Dependency list of the view.
    pub fn dependencies(&self, ev: FdEvent) -> (r: Vec<(usize, FdEvent)>)
        ensures
            r@ == self.deps(ev),
    {
        match self {
            FdView::Identity { var } => {
                let mut r: Vec<(usize, FdEvent)> = Vec::new();
                r.push((*var, ev));
                proof {
                    assert(r@ =~= self.deps(ev));
                }
                r
            },
            FdView::Constant { .. } => Vec::new(),
            FdView::Addition { var, .. } => {
                let mut r: Vec<(usize, FdEvent)> = Vec::new();
                r.push((*var, ev));
                proof {
                    assert(r@ =~= self.deps(ev));
                }
                r
            },
        }
    }

    /// Under an assignment lying in the variable domains, the view's value
    /// lies in the view's domain.
    pub proof fn lemma_val_in_view_dom(self, doms: Seq<Dom>, a: Seq<int>)
        requires
            self.deps_ok(doms.len() as int),
            forall|i: int| 0 <= i < doms.len() ==> (#[trigger] doms[i]).wf(),
            forall|i: int| 0 <= i < doms.len() ==> crate::vstore::in_range(#[trigger] doms[i]),
            a.len() == doms.len(),
            forall|i: int| 0 <= i < doms.len() ==> (#[trigger] doms[i]).has(a[i]),
        ensures
            self.view_dom(doms).has(self.val(a)),
    {
    }

    /// Writing a sub-domain through the view keeps every assignment whose
    /// view value lies in the written domain.
    pub proof fn lemma_update_keeps(self, doms: Seq<Dom>, d: Dom, a: Seq<int>)
        requires
            self.deps_ok(doms.len() as int),
            forall|i: int| 0 <= i < doms.len() ==> (#[trigger] doms[i]).wf(),
            forall|i: int| 0 <= i < doms.len() ==> crate::vstore::in_range(#[trigger] doms[i]),
            d.wf(),
            d.subset_of(self.view_dom(doms)),
            a.len() == doms.len(),
            forall|i: int| 0 <= i < doms.len() ==> (#[trigger] doms[i]).has(a[i]),
            d.has(self.val(a)),
        ensures
            forall|i: int|
                0 <= i < doms.len() ==> (#[trigger] self.update_doms(doms, d)[i]).has(a[i]),
    {
    }

    /// Monotone writes through the view shrink the variable domains
    /// pointwise.
    pub proof fn lemma_update_monotone(self, doms: Seq<Dom>, d: Dom)
        requires
            self.deps_ok(doms.len() as int),
            forall|i: int| 0 <= i < doms.len() ==> (#[trigger] doms[i]).wf(),
            forall|i: int| 0 <= i < doms.len() ==> crate::vstore::in_range(#[trigger] doms[i]),
            d.wf(),
            d.subset_of(self.view_dom(doms)),
        ensures
            self.update_doms(doms, d).len() == doms.len(),
            forall|i: int|
                0 <= i < doms.len() ==> (#[trigger] self.update_doms(doms, d)[i]).subset_of(
                    doms[i],
                ),
            forall|i: int| 0 <= i < doms.len() ==> (#[trigger] self.update_doms(doms, d)[i]).wf(),
            forall|i: int|
                0 <= i < doms.len() ==> crate::vstore::in_range(
                    #[trigger] self.update_doms(doms, d)[i],
                ),
    {
    }

    /// Reading the view back after writing a non-empty domain through it
    /// yields exactly the written domain.
    pub proof fn lemma_read_after_update(self, doms: Seq<Dom>, d: Dom)
        requires
            self.deps_ok(doms.len() as int),
            forall|i: int| 0 <= i < doms.len() ==> (#[trigger] doms[i]).wf(),
            forall|i: int| 0 <= i < doms.len() ==> crate::vstore::in_range(#[trigger] doms[i]),
            d.wf(),
            d.subset_of(self.view_dom(doms)),
            !d.spec_is_empty(),
        ensures
            self.view_dom(self.update_doms(doms, d)) == d,
    {
    }

    /// Writing a non-empty domain through the view never empties a
    /// variable: any changed entry is non-empty.
    pub proof fn lemma_update_changed_nonempty(self, doms: Seq<Dom>, d: Dom)
        requires
            self.deps_ok(doms.len() as int),
            forall|i: int| 0 <= i < doms.len() ==> (#[trigger] doms[i]).wf(),
            forall|i: int| 0 <= i < doms.len() ==> crate::vstore::in_range(#[trigger] doms[i]),
            d.wf(),
            d.subset_of(self.view_dom(doms)),
            !d.spec_is_empty(),
        ensures
            forall|v: int|
                0 <= v < doms.len() && self.update_doms(doms, d)[v] != doms[v] ==> !(
                #[trigger] self.update_doms(doms, d)[v]).spec_is_empty(),
    {
    }

    /// Under a pointwise shrink that empties nothing it changes, the
    /// view's domain is either untouched or shrinks to a non-empty
    /// sub-domain.
    pub proof fn lemma_view_dom_shrink_cases(self, doms1: Seq<Dom>, doms2: Seq<Dom>)
        requires
            doms1.len() == doms2.len(),
            self.deps_ok(doms1.len() as int),
            forall|i: int| 0 <= i < doms1.len() ==> (#[trigger] doms1[i]).wf(),
            forall|i: int| 0 <= i < doms2.len() ==> (#[trigger] doms2[i]).wf(),
            forall|i: int| 0 <= i < doms1.len() ==> crate::vstore::in_range(#[trigger] doms1[i]),
            forall|i: int| 0 <= i < doms2.len() ==> crate::vstore::in_range(#[trigger] doms2[i]),
            forall|i: int| 0 <= i < doms1.len() ==> (#[trigger] doms2[i]).subset_of(doms1[i]),
            forall|v: int|
                0 <= v < doms1.len() && doms2[v] != doms1[v] ==> !(
                #[trigger] doms2[v]).spec_is_empty(),
        ensures
            self.view_dom(doms2) == self.view_dom(doms1) || (!self.view_dom(
                doms2,
            ).spec_is_empty() && self.view_dom(doms2).subset_of(self.view_dom(doms1))),
    {
        self.lemma_view_dom_monotone(doms1, doms2);
    }

    /// Shrinking the variable domains pointwise shrinks the view's domain.
    pub proof fn lemma_view_dom_monotone(self, doms1: Seq<Dom>, doms2: Seq<Dom>)
        requires
            doms1.len() == doms2.len(),
            self.deps_ok(doms1.len() as int),
            forall|i: int| 0 <= i < doms1.len() ==> (#[trigger] doms1[i]).wf(),
            forall|i: int| 0 <= i < doms2.len() ==> (#[trigger] doms2[i]).wf(),
            forall|i: int| 0 <= i < doms1.len() ==> crate::vstore::in_range(#[trigger] doms1[i]),
            forall|i: int| 0 <= i < doms2.len() ==> crate::vstore::in_range(#[trigger] doms2[i]),
            forall|i: int| 0 <= i < doms1.len() ==> (#[trigger] doms2[i]).subset_of(doms1[i]),
        ensures
            self.view_dom(doms2).subset_of(self.view_dom(doms1)),
    {
    }
}

} // verus!
