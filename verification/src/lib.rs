//! Mutually exclusive state attributes under a derived category marker.
//!
//! A *category* (superstate) attribute stands for "this entity is in some
//! member state of the group"; its *state* attributes are the members. This
//! crate keeps two facts true of every entity once a transaction has
//! settled: at most one state of a category is attached, and the category
//! attribute is attached exactly while some state is. It does so with four
//! reactive hooks — on attach and detach of a state, and of the category —
//! that update a small per-entity record immediately and defer every
//! structural removal to a command queue, since a hook runs in reaction to a
//! structural mutation still in flight.
//!
//! [`store::Store`] models the host attribute store those hooks live in:
//! registration with a one-hook-pair-per-identity exclusivity map,
//! required-attribute closure on attach, synchronous hook dispatch, and the
//! deferred queue with its flush. [`register_hooks`] wires one
//! `(category, states)` pair; [`hooks`] holds the four callbacks;
//! [`SuperstateInfo`] is the record; [`laws`] proves the settled-state
//! guarantees. Attaching several states in one transaction is allowed: the
//! one attached last survives the flush, a deliberate policy that should not
//! be read as attach order meaning anything more.

use vstd::prelude::*;

mod ids;
pub mod hooks;
pub mod laws;
pub mod record;
pub mod store;

pub use record::HookBusyError;
pub use record::SuperstateInfo;
pub use store::register_hooks;
pub use store::superstate_plugin;
pub use store::Store;

verus! {

} // verus!
