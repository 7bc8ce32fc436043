//! The four reactive hooks.
//!
//! Each hook is the decision part of one callback: it reads and updates the
//! entity's [`SuperstateInfo`] record immediately and reports which structural
//! removals must be *deferred* to the store's command queue. The store never
//! lets a hook mutate the attribute set in place, because the hook itself runs
//! in reaction to a structural mutation still in flight.

use vstd::prelude::*;
use crate::ids::copy_ids;
use crate::record::SuperstateInfo;

verus! {

/// Runs when a state identity of the bundle is attached to an entity.
///
/// Lazily populates the record's declared set on first use, tracks the new
/// state as active, and returns every other tracked state so the store can
/// schedule its removal: the state must be unique, and when several states
/// arrive in one transaction, only the last one attached survives the flush.
pub fn on_add_hook_state(info: &mut SuperstateInfo, declared: &Vec<u64>, attached: u64) -> (evict:
    Vec<u64>)
    requires
        old(info).wf(),
        !old(info).active().contains(attached),
        old(info).registered() == declared@ || old(info).registered().len() == 0,
    ensures
        final(info).wf(),
        final(info).registered() == declared@,
        final(info).active() == old(info).active().push(attached),
        evict@ == old(info).active(),
{
    broadcast use vstd::seq_lib::lemma_seq_contains_after_push;

    if info.state_ids.len() == 0 {
        info.state_ids = copy_ids(declared);
    }
    info.states_on_entity.push(attached);
    let ghost now = info.states_on_entity@;
    let ghost before = old(info).states_on_entity@;
    let mut evict: Vec<u64> = Vec::new();
    let mut i: usize = 0;
    while i < info.states_on_entity.len()
        invariant
            info.states_on_entity@ == now,
            now == before.push(attached),
            !before.contains(attached),
            i <= now.len(),
            evict@ == if i as int <= before.len() as int {
                before.take(i as int)
            } else {
                before
            },
        decreases now.len() - i,
    {
        if info.states_on_entity[i] != attached {
            evict.push(info.states_on_entity[i]);
            proof {
                assert(now[i as int] != attached);
                assert(i < before.len()) by {
                    if i as int == before.len() as int {
                        assert(now[i as int] == attached);
                    }
                }
                assert(now[i as int] == before[i as int]);
                assert(evict@ =~= before.take(i as int + 1));
            }
        } else {
            proof {
                assert(now[i as int] == attached);
                assert(i as int == before.len() as int) by {
                    if i < before.len() {
                        assert(before[i as int] == attached);
                        assert(before.contains(attached));
                    }
                }
            }
        }
        i = i + 1;
    }
    proof {
        assert(evict@ =~= before);
    }
    evict
}

/// Runs when a state identity is detached, whether by the user or by an
/// eviction scheduled earlier. Stops tracking the identity (a tolerated no-op
/// when it was not tracked) and reports whether the category attribute must
/// now be scheduled for removal because no tracked state is left.
pub fn on_remove_hook_state(info: &mut SuperstateInfo, detached: u64) -> (drop_category: bool)
    requires
        old(info).wf(),
    ensures
        final(info).wf(),
        final(info).state_ids == old(info).state_ids,
        forall|y: u64|
            final(info).active().contains(y) <==> (old(info).active().contains(y) && y
                != detached),
        final(info).active().len() == if old(info).active().contains(detached) {
            old(info).active().len() - 1
        } else {
            old(info).active().len() as int
        },
        !old(info).active().contains(detached) ==> final(info).active() == old(info).active(),
        drop_category <==> final(info).active().len() == 0,
{
    info.remove_by_id(detached);
    info.states_on_entity.is_empty()
}

/// Runs when the category attribute itself is attached. Reports whether it
/// must be scheduled for removal again: a category attached while no state is
/// tracked does not stay, unless a state attach in the same transaction
/// supersedes the scheduled removal before the flush.
pub fn on_add_superstate(info: &SuperstateInfo) -> (drop_category: bool)
    ensures
        drop_category <==> info.active().len() == 0,
{
    info.states_on_entity.is_empty()
}

/// Runs when the category attribute is detached. Clears the tracked set and
/// returns the full declared bundle so the store schedules removal of every
/// state attribute — not just the tracked ones — leaving a clean slate. This
/// is the one call by which a user bulk-clears all state of an entity.
pub fn on_remove_superstate(info: &mut SuperstateInfo, declared: &Vec<u64>) -> (evict: Vec<u64>)
    ensures
        final(info).wf(),
        final(info).state_ids == old(info).state_ids,
        final(info).active().len() == 0,
        evict@ == declared@,
{
    let evict = copy_ids(declared);
    info.states_on_entity.clear();
    evict
}

} // verus!
