//! The per-entity category record and the registration error.

use vstd::prelude::*;
use crate::ids::remove_id;

verus! {

/// Error reported by registration when an attribute identity already has a
/// hook pair installed — for example, a state identity shared by two
/// categories, or an identity already used elsewhere as a marker. Carries the
/// offending identity. The store allows only one hook pair per identity, so
/// this limitation cannot be bypassed.
#[derive(Debug, Clone, Copy, PartialEq, Eq, Structural)]
pub struct HookBusyError(pub u64);

/// Auxiliary per-entity, per-category record that the four hooks read and
/// write to keep at most one concrete state attached at a time.
///
/// The record is created empty when the category attribute first reaches the
/// entity, and it is never destroyed by the hooks themselves: cycling out of
/// the category leaves it behind, empty, so re-entering the category later is
/// cheap. Callers may drop it once the entity will never re-enter the
/// category.
#[derive(Debug, Clone)]
pub struct SuperstateInfo {
    /// All state identities declared for the category. Empty until the first
    /// state attach populates it; immutable and equal to the declared bundle
    /// afterwards.
    pub state_ids: Vec<u64>,
    /// State identities currently attached to this entity for this category.
    /// Holds zero or one element once a transaction has settled; more only
    /// while scheduled removals are still pending in the command queue.
    pub states_on_entity: Vec<u64>,
}

impl SuperstateInfo {
    /// The active working set never holds an identity twice.
    pub open spec fn wf(self) -> bool {
        self.states_on_entity@.no_duplicates()
    }

    /// State identities currently tracked as attached.
    pub open spec fn active(self) -> Seq<u64> {
        self.states_on_entity@
    }

    /// Declared state identities, once lazily populated.
    pub open spec fn registered(self) -> Seq<u64> {
        self.state_ids@
    }

    /// Evicts one identity from the active working set; evicting an identity
    /// that is not tracked is a tolerated no-op.
    pub fn remove_by_id(&mut self, id: u64)
        requires
            old(self).wf(),
        ensures
            final(self).wf(),
            final(self).state_ids == old(self).state_ids,
            forall|y: u64|
                final(self).active().contains(y) <==> (old(self).active().contains(y) && y != id),
            final(self).active().len() == if old(self).active().contains(id) {
                old(self).active().len() - 1
            } else {
                old(self).active().len() as int
            },
            !old(self).active().contains(id) ==> final(self).active() == old(self).active(),
    {
        remove_id(&mut self.states_on_entity, id);
    }
}

impl Default for SuperstateInfo {
    /// A fresh record: nothing declared yet, nothing attached.
    fn default() -> (r: SuperstateInfo)
        ensures
            r.registered().len() == 0,
            r.active().len() == 0,
            r.wf(),
    {
        SuperstateInfo { state_ids: Vec::new(), states_on_entity: Vec::new() }
    }
}

} // verus!
