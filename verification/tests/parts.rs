//! Unit tests of the engine's parts: trileans, events, interval domains,
//! the variable store's delta log, the reactor and the scheduler.

use pcp::domain::Dom;
use pcp::event::FdEvent;
use pcp::reactor::Reactor;
use pcp::scheduler::Scheduler;
use pcp::trilean::Trilean;
use pcp::vstore::VStore;

#[test]
fn trilean_tables() {
    // Conjunction is the minimum in the order False < Unknown < True.
    assert_eq!(Trilean::False.and(Trilean::True), Trilean::False);
    assert_eq!(Trilean::False.and(Trilean::Unknown), Trilean::False);
    assert_eq!(Trilean::True.and(Trilean::Unknown), Trilean::Unknown);
    assert_eq!(Trilean::True.and(Trilean::True), Trilean::True);
    assert_eq!(Trilean::Unknown.and(Trilean::Unknown), Trilean::Unknown);
    // Disjunction is the maximum.
    assert_eq!(Trilean::False.or(Trilean::True), Trilean::True);
    assert_eq!(Trilean::Unknown.or(Trilean::False), Trilean::Unknown);
    assert_eq!(Trilean::Unknown.or(Trilean::True), Trilean::True);
}

#[test]
fn event_lattice() {
    assert_eq!(FdEvent::size(), 3);
    assert_eq!(FdEvent::Inner.index(), 0);
    assert_eq!(FdEvent::Bound.index(), 1);
    assert_eq!(FdEvent::Assignment.index(), 2);
    assert_eq!(FdEvent::Bound.join(FdEvent::Assignment), FdEvent::Assignment);
    assert_eq!(FdEvent::Inner.join(FdEvent::Bound), FdEvent::Bound);
    assert_eq!(FdEvent::Bound.join(FdEvent::Bound), FdEvent::Bound);
    assert!(FdEvent::Assignment.subsumes(FdEvent::Inner));
    assert!(!FdEvent::Inner.subsumes(FdEvent::Bound));
}

#[test]
fn domain_basics() {
    let d = Dom::new(3, 7);
    assert_eq!(d.lower(), 3);
    assert_eq!(d.upper(), 7);
    assert_eq!(d.size(), 5);
    assert!(!d.is_empty());
    assert!(!d.is_singleton());
    assert!(d.contains(3) && d.contains(7) && !d.contains(8));
    let e = Dom::new(5, 2);
    assert!(e.is_empty());
    assert_eq!(e, Dom::empty());
    assert_eq!(e.size(), 0);
    let s = Dom::singleton(4);
    assert!(s.is_singleton());
    assert_eq!(s.size(), 1);
    assert!(Dom::new(4, 6).is_subset_of(&Dom::new(3, 7)));
    assert!(!Dom::new(2, 6).is_subset_of(&Dom::new(3, 7)));
    assert!(Dom::empty().is_subset_of(&Dom::new(3, 7)));
}

#[test]
fn domain_shrink_and_remove() {
    let d = Dom::new(3, 7);
    assert_eq!(d.shrink_left(5), Dom::new(5, 7));
    assert_eq!(d.strict_shrink_left(5), Dom::new(6, 7));
    assert_eq!(d.shrink_right(5), Dom::new(3, 5));
    assert_eq!(d.strict_shrink_right(5), Dom::new(3, 4));
    assert!(d.strict_shrink_left(7).is_empty());
    assert_eq!(d.shrink_left(1), d);
    assert_eq!(d.remove(3), Dom::new(4, 7));
    assert_eq!(d.remove(7), Dom::new(3, 6));
    // An interval cannot drop a strictly inner value.
    assert_eq!(d.remove(5), d);
    assert!(Dom::singleton(4).remove(4).is_empty());
}

#[test]
fn domain_arithmetic() {
    let a = Dom::new(1, 4);
    let b = Dom::new(2, 5);
    assert_eq!(a.intersect(&b), Dom::new(2, 4));
    assert!(Dom::new(1, 2).intersect(&Dom::new(4, 5)).is_empty());
    assert_eq!(a.add(&b), Dom::new(3, 9));
    assert_eq!(a.sub(&b), Dom::new(-4, 2));
    assert_eq!(Dom::new(-2, 3).mul(&Dom::new(4, 5)), Dom::new(-10, 15));
    assert_eq!(a.difference(&Dom::new(3, 9)), Dom::new(1, 2));
    assert_eq!(a.difference(&Dom::new(0, 1)), Dom::new(2, 4));
    assert!(a.difference(&Dom::new(0, 9)).is_empty());
    assert!(a.add(&Dom::empty()).is_empty());
}

#[test]
fn vstore_update_events_and_deltas() {
    let mut s = VStore::empty();
    let v = s.allocate(Dom::new(1, 10));
    let w = s.allocate(Dom::new(1, 10));
    assert_eq!(s.size(), 2);
    assert!(!s.has_changed());
    // A bound move is a Bound event.
    assert!(s.update(v, Dom::new(2, 10)));
    assert!(s.has_changed());
    // A second update on the same variable joins into one entry; pinning
    // the variable upgrades the kind to Assignment.
    assert!(s.update(v, Dom::new(2, 2)));
    assert!(s.update(w, Dom::new(1, 9)));
    let deltas = s.drain_delta();
    assert_eq!(
        deltas,
        vec![(v, FdEvent::Assignment), (w, FdEvent::Bound)]
    );
    assert!(!s.has_changed());
    // An update that changes nothing records no delta.
    assert!(s.update(w, Dom::new(1, 9)));
    assert!(!s.has_changed());
    // An emptying update writes the empty domain and reports failure.
    assert!(!s.update(w, Dom::empty()));
    assert_eq!(s.read(w), Dom::empty());
}

#[test]
fn reactor_wakes_stronger_kinds() {
    let mut r = Reactor::new(2, 3);
    assert!(r.is_empty());
    r.subscribe(0, FdEvent::Bound, 7);
    r.subscribe(0, FdEvent::Bound, 7);  // idempotent
    r.subscribe(1, FdEvent::Assignment, 9);
    assert!(!r.is_empty());
    // A Bound subscription is woken by Bound and Assignment, not Inner.
    assert_eq!(r.react(0, FdEvent::Assignment), vec![7]);
    assert_eq!(r.react(0, FdEvent::Bound), vec![7]);
    assert_eq!(r.react(0, FdEvent::Inner), Vec::<usize>::new());
    // An Assignment subscription is woken only by Assignment.
    assert_eq!(r.react(1, FdEvent::Assignment), vec![9]);
    assert_eq!(r.react(1, FdEvent::Bound), Vec::<usize>::new());
    r.unsubscribe(0, FdEvent::Bound, 7);
    assert_eq!(r.react(0, FdEvent::Assignment), Vec::<usize>::new());
    r.unsubscribe(1, FdEvent::Assignment, 9);
    assert!(r.is_empty());
}

#[test]
fn scheduler_dedups_and_pops() {
    let mut s = Scheduler::new(3);
    assert_eq!(s.pop(), None);
    s.schedule(1);
    s.schedule(1);
    s.schedule(2);
    let first = s.pop().unwrap();
    let second = s.pop().unwrap();
    assert!(first != second);
    assert!(first == 1 || first == 2);
    assert!(second == 1 || second == 2);
    assert_eq!(s.pop(), None);
    s.schedule(0);
    s.unschedule(0);
    assert_eq!(s.pop(), None);
}
