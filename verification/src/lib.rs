//! Core of a finite-domain constraint programming engine: an event-driven
//! constraint propagation loop that decides, for a conjunction of arithmetic
//! constraints over bounded integer variables, whether the constraint set is
//! entailed (`True`), disentailed (`False`), or undetermined (`Unknown`)
//! after fixpoint filtering.
//!
//! The pieces, leaves first: three-valued logic (`trilean`), the lattice of
//! variable-change events (`event`), integer interval domains (`domain`), the
//! variable store with its per-round delta log (`vstore`), read/update views
//! over variables (`term`), the arithmetic propagators (`props`), the
//! variable-event subscription index (`reactor`), the propagator worklist
//! (`scheduler`), and the constraint store that drives the fixpoint loop
//! (`store`).
#![verifier::loop_isolation(false)]

pub mod domain;
pub mod event;
pub mod props;
pub mod reactor;
pub mod scheduler;
pub mod store;
pub mod term;
pub mod trilean;
pub mod vstore;
