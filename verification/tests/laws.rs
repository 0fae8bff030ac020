//! Concrete checks of the engine's invariants: monotone filtering,
//! idempotence, order-independence of the fixpoint, subsumption stability,
//! snapshot round trips and clone independence.

use pcp::domain::Dom;
use pcp::props::Prop;
use pcp::props::XGreaterYPlusZ;
use pcp::props::XLessY;
use pcp::store::Store;
use pcp::term::FdView;
use pcp::trilean::Trilean;
use pcp::vstore::VStore;

#[test]
fn propagate_is_monotone() {
    let mut store = VStore::empty();
    let x = store.allocate(Dom::new(6, 10));
    let y = store.allocate(Dom::new(5, 10));
    let z = store.allocate(Dom::new(1, 10));
    let before = vec![store.read(x), store.read(y), store.read(z)];
    let prop = XGreaterYPlusZ::new(
        FdView::identity(x),
        FdView::identity(y),
        FdView::identity(z),
    );
    assert!(prop.propagate(&mut store));
    for (i, v) in [x, y, z].iter().enumerate() {
        assert!(store.read(*v).is_subset_of(&before[i]));
    }
}

#[test]
fn propagate_is_idempotent() {
    let mut store = VStore::empty();
    let x = store.allocate(Dom::new(6, 10));
    let y = store.allocate(Dom::new(5, 10));
    let z = store.allocate(Dom::new(1, 10));
    let prop = XGreaterYPlusZ::new(
        FdView::identity(x),
        FdView::identity(y),
        FdView::identity(z),
    );
    assert!(prop.propagate(&mut store));
    let after_one = vec![store.read(x), store.read(y), store.read(z)];
    assert!(prop.propagate(&mut store));
    let after_two = vec![store.read(x), store.read(y), store.read(z)];
    assert_eq!(after_one, after_two);
    // The second pass recorded no delta.
    store.drain_delta();
    assert!(prop.propagate(&mut store));
    assert!(!store.has_changed());
}

#[test]
fn fixpoint_is_order_independent() {
    // The same chain of constraints, registered in opposite orders,
    // reaches the same final domains.
    let mut forward_vars = VStore::empty();
    let mut forward = Store::empty();
    let mut backward_vars = VStore::empty();
    let mut backward = Store::empty();
    let n = 8;
    let mut vs1 = vec![];
    let mut vs2 = vec![];
    for _ in 0..n {
        vs1.push(forward_vars.allocate(Dom::new(1, 8)));
        vs2.push(backward_vars.allocate(Dom::new(1, 8)));
    }
    for i in 0..n - 1 {
        forward.allocate(Prop::Less(XLessY::new(
            FdView::identity(vs1[i]),
            FdView::identity(vs1[i + 1]),
        )));
    }
    for i in (0..n - 1).rev() {
        backward.allocate(Prop::Less(XLessY::new(
            FdView::identity(vs2[i]),
            FdView::identity(vs2[i + 1]),
        )));
    }
    assert_eq!(forward.consistency(&mut forward_vars), Trilean::True);
    assert_eq!(backward.consistency(&mut backward_vars), Trilean::True);
    for i in 0..n {
        assert_eq!(forward_vars.read(vs1[i]), backward_vars.read(vs2[i]));
    }
}

#[test]
fn subsumption_is_stable_under_refinement() {
    let mut store = VStore::empty();
    let x = store.allocate(Dom::new(10, 20));
    let y = store.allocate(Dom::new(1, 5));
    let prop = XLessY::new(FdView::identity(y), FdView::identity(x));
    assert_eq!(prop.is_subsumed(&store), Trilean::True);
    // Any non-empty refinement keeps the answer.
    assert!(store.update(x, Dom::new(12, 15)));
    assert!(store.update(y, Dom::new(2, 2)));
    assert_eq!(prop.is_subsumed(&store), Trilean::True);
}

#[test]
fn vstore_snapshot_round_trip() {
    let mut s = VStore::empty();
    let v = s.allocate(Dom::new(1, 9));
    let w = s.allocate(Dom::new(0, 3));
    let frozen = s.freeze();
    let label = frozen.label();
    let restored = frozen.restore(label);
    assert_eq!(restored.size(), 2);
    assert_eq!(restored.read(v), Dom::new(1, 9));
    assert_eq!(restored.read(w), Dom::new(0, 3));
}

#[test]
fn cstore_snapshot_restores_propagator_count() {
    let mut vars = VStore::empty();
    let x = vars.allocate(Dom::new(1, 4));
    let y = vars.allocate(Dom::new(1, 4));
    let mut cstore = Store::empty();
    cstore.allocate(Prop::Less(XLessY::new(
        FdView::identity(x),
        FdView::identity(y),
    )));
    // Freeze, take a label, then branch by adding a failing constraint.
    let frozen = cstore.freeze();
    let label = frozen.label();
    let mut branched = frozen.restore(label);
    branched.allocate(Prop::Less(XLessY::new(
        FdView::identity(y),
        FdView::identity(y),
    )));
    // Rolling back to the label drops the branch constraint.
    let rolled = branched.freeze();
    let mut cstore = rolled.restore(label);
    assert_eq!(cstore.consistency(&mut vars), Trilean::Unknown);
}

#[test]
fn clone_is_independent() {
    let mut vars = VStore::empty();
    let x = vars.allocate(Dom::new(1, 1));
    let y = vars.allocate(Dom::new(1, 1));
    let original = Store::empty();
    let mut copy = original.clone();
    // Mutating the clone must not mutate the original.
    copy.allocate(Prop::Less(XLessY::new(
        FdView::identity(x),
        FdView::identity(y),
    )));
    let mut vars2 = VStore::empty();
    vars2.allocate(Dom::new(1, 1));
    vars2.allocate(Dom::new(1, 1));
    let mut original = original;
    assert_eq!(original.consistency(&mut vars2), Trilean::True);
    assert_eq!(copy.consistency(&mut vars), Trilean::False);
}

#[test]
fn empty_domain_fails_propagation() {
    // Allocating an already-empty domain is accepted; propagation then
    // immediately reports inconsistency.
    let mut vars = VStore::empty();
    let x = vars.allocate(Dom::empty());
    let y = vars.allocate(Dom::new(1, 4));
    let mut cstore = Store::empty();
    cstore.allocate(Prop::Less(XLessY::new(
        FdView::identity(x),
        FdView::identity(y),
    )));
    assert_eq!(cstore.consistency(&mut vars), Trilean::False);
}

#[test]
fn store_dependencies_sorted_unique() {
    let mut vars = VStore::empty();
    let x = vars.allocate(Dom::new(1, 4));
    let y = vars.allocate(Dom::new(1, 4));
    let mut cstore = Store::empty();
    cstore.allocate(Prop::Less(XLessY::new(
        FdView::identity(x),
        FdView::identity(y),
    )));
    cstore.allocate(Prop::Less(XLessY::new(
        FdView::identity(y),
        FdView::identity(x),
    )));
    let deps = cstore.dependencies();
    assert_eq!(deps.len(), 2);
    assert_eq!(deps[0].0, x);
    assert_eq!(deps[1].0, y);
}
