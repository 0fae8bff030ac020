//! Direct filtering tests of the equality, disequality and all-different
//! propagators, with exact expected domains and the inputs that make each
//! of them fail.

use pcp::domain::Dom;
use pcp::props::Distinct;
use pcp::props::XEqY;
use pcp::props::XNeqY;
use pcp::term::FdView;
use pcp::trilean::Trilean;
use pcp::vstore::VStore;

#[test]
fn x_eq_y_intersects_both() {
    let mut store = VStore::empty();
    let x = store.allocate(Dom::new(1, 4));
    let y = store.allocate(Dom::new(3, 6));
    let prop = XEqY::new(FdView::identity(x), FdView::identity(y));
    assert_eq!(prop.is_subsumed(&store), Trilean::Unknown);
    assert!(prop.propagate(&mut store));
    assert_eq!(store.read(x), Dom::new(3, 4));
    assert_eq!(store.read(y), Dom::new(3, 4));
}

#[test]
fn x_eq_y_disjoint_fails() {
    let mut store = VStore::empty();
    let x = store.allocate(Dom::new(1, 2));
    let y = store.allocate(Dom::new(4, 6));
    let prop = XEqY::new(FdView::identity(x), FdView::identity(y));
    assert_eq!(prop.is_subsumed(&store), Trilean::False);
    assert!(!prop.propagate(&mut store));
    assert!(store.read(x).is_empty());
}

#[test]
fn x_eq_y_same_singleton_subsumed() {
    let mut store = VStore::empty();
    let x = store.allocate(Dom::new(3, 3));
    let y = store.allocate(Dom::new(3, 3));
    let prop = XEqY::new(FdView::identity(x), FdView::identity(y));
    assert_eq!(prop.is_subsumed(&store), Trilean::True);
}

#[test]
fn x_neq_y_removes_pinned_value() {
    let mut store = VStore::empty();
    let x = store.allocate(Dom::new(2, 2));
    let y = store.allocate(Dom::new(2, 5));
    let prop = XNeqY::new(FdView::identity(x), FdView::identity(y));
    assert_eq!(prop.is_subsumed(&store), Trilean::Unknown);
    assert!(prop.propagate(&mut store));
    assert_eq!(store.read(x), Dom::new(2, 2));
    assert_eq!(store.read(y), Dom::new(3, 5));
    assert_eq!(prop.is_subsumed(&store), Trilean::True);
}

#[test]
fn x_neq_y_equal_singletons_fail() {
    let mut store = VStore::empty();
    let x = store.allocate(Dom::new(7, 7));
    let y = store.allocate(Dom::new(7, 7));
    let prop = XNeqY::new(FdView::identity(x), FdView::identity(y));
    assert_eq!(prop.is_subsumed(&store), Trilean::False);
    assert!(!prop.propagate(&mut store));
}

#[test]
fn x_neq_y_through_addition_view() {
    // X ≠ Y + 2 with X pinned to 5 removes 3 from Y.
    let mut store = VStore::empty();
    let x = store.allocate(Dom::new(5, 5));
    let y = store.allocate(Dom::new(3, 6));
    let prop = XNeqY::new(FdView::identity(x), FdView::addition(y, 2));
    assert!(prop.propagate(&mut store));
    assert_eq!(store.read(x), Dom::new(5, 5));
    assert_eq!(store.read(y), Dom::new(4, 6));
}

#[test]
fn distinct_removes_assigned_values() {
    let mut store = VStore::empty();
    let a = store.allocate(Dom::new(1, 1));
    let b = store.allocate(Dom::new(1, 3));
    let c = store.allocate(Dom::new(1, 3));
    let prop = Distinct::new(vec![
        FdView::identity(a),
        FdView::identity(b),
        FdView::identity(c),
    ]);
    assert_eq!(prop.is_subsumed(&store), Trilean::Unknown);
    assert!(prop.propagate(&mut store));
    assert_eq!(store.read(a), Dom::new(1, 1));
    assert_eq!(store.read(b), Dom::new(2, 3));
    assert_eq!(store.read(c), Dom::new(2, 3));
}

#[test]
fn distinct_conflict_fails() {
    let mut store = VStore::empty();
    let a = store.allocate(Dom::new(4, 4));
    let b = store.allocate(Dom::new(4, 4));
    let prop = Distinct::new(vec![FdView::identity(a), FdView::identity(b)]);
    assert_eq!(prop.is_subsumed(&store), Trilean::False);
    assert!(!prop.propagate(&mut store));
}

#[test]
fn distinct_disjoint_subsumed() {
    let mut store = VStore::empty();
    let a = store.allocate(Dom::new(1, 2));
    let b = store.allocate(Dom::new(3, 4));
    let c = store.allocate(Dom::new(5, 6));
    let prop = Distinct::new(vec![
        FdView::identity(a),
        FdView::identity(b),
        FdView::identity(c),
    ]);
    assert_eq!(prop.is_subsumed(&store), Trilean::True);
}

#[test]
fn constant_view_conflict_fails_without_store_change() {
    // distinct(X, 3) with X pinned to 3 fails, leaving the store as it is:
    // a constant cannot narrow.
    let mut store = VStore::empty();
    let x = store.allocate(Dom::new(3, 3));
    let prop = Distinct::new(vec![FdView::identity(x), FdView::constant(3)]);
    assert_eq!(prop.is_subsumed(&store), Trilean::False);
    assert!(!prop.propagate(&mut store));
    assert_eq!(store.read(x), Dom::new(3, 3));
}
