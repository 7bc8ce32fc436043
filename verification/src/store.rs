//! A model of the host entity/attribute store, just rich enough to run the
//! four hooks under the deferred-mutation discipline they were written for.
//!
//! Entities are indices, attribute identities are opaque `u64` handles.
//! Registration installs, per category, a hook pair on the category identity
//! and on every state identity, guarded by a runtime-checked exclusivity map
//! (one hook pair per identity). Attaching or detaching an attribute runs the
//! matching hook synchronously; the structural removals a hook requests are
//! queued on a deferred command queue and applied by [`Store::flush`], never
//! in place, because a hook runs in reaction to a structural mutation still
//! in flight. Attaching a state auto-attaches its category and the per-entity
//! record first, the way a required-attribute relationship would.

use vstd::prelude::*;
use crate::hooks::{on_add_hook_state, on_add_superstate, on_remove_hook_state, on_remove_superstate};
use crate::ids::{contains_id, copy_ids, remove_id};
use crate::record::{HookBusyError, SuperstateInfo};

verus! {

/// One registered category: its identity and its declared state identities.
pub struct CategoryEntry {
    pub category: u64,
    pub states: Vec<u64>,
}

/// A per-entity category record, keyed by the category it serves.
pub struct RecordSlot {
    pub category: u64,
    pub info: SuperstateInfo,
}

/// One entity: the attribute identities attached to it, and its records.
pub struct EntityState {
    pub present: Vec<u64>,
    pub records: Vec<RecordSlot>,
}

/// A deferred structural mutation.
#[derive(Clone, Copy)]
pub enum Cmd {
    /// Remove one attribute from one entity.
    Detach { entity: usize, attr: u64 },
    /// Removal of a category attribute scheduled by the attach-category
    /// guard. It is superseded — skipped at flush time — when a state has
    /// become active on the entity in the meantime.
    DetachCategoryIfInactive { entity: usize, category: u64 },
}

/// The store: the category registry with its hook-exclusivity map, the
/// entities, and the deferred command queue.
pub struct Store {
    pub cats: Vec<CategoryEntry>,
    pub entities: Vec<EntityState>,
    pub queue: Vec<Cmd>,
    /// Strict upper bound on the size of every declared bundle; it bounds how
    /// many commands one removal can schedule, which lets the flush terminate.
    pub bound: usize,
}

pub open spec fn cat_listed(cats: Seq<CategoryEntry>, c: u64) -> bool {
    exists|i: int| 0 <= i < cats.len() && cats[i].category == c
}

pub open spec fn cat_index(cats: Seq<CategoryEntry>, c: u64) -> int {
    choose|i: int| 0 <= i < cats.len() && cats[i].category == c
}

pub open spec fn declared_of(cats: Seq<CategoryEntry>, c: u64) -> Seq<u64> {
    cats[cat_index(cats, c)].states@
}

pub open spec fn busy_in(cats: Seq<CategoryEntry>, a: u64) -> bool {
    exists|i: int|
        0 <= i < cats.len() && (cats[i].category == a || cats[i].states@.contains(a))
}

pub open spec fn rec_listed(recs: Seq<RecordSlot>, c: u64) -> bool {
    exists|i: int| 0 <= i < recs.len() && recs[i].category == c
}

pub open spec fn rec_index(recs: Seq<RecordSlot>, c: u64) -> int {
    choose|i: int| 0 <= i < recs.len() && recs[i].category == c
}

pub open spec fn rec_of(recs: Seq<RecordSlot>, c: u64) -> SuperstateInfo {
    recs[rec_index(recs, c)].info
}

/// Whether a plain removal of attribute `a` from entity `e` is in `q`.
pub open spec fn queued_detach_in(q: Seq<Cmd>, e: int, a: u64) -> bool {
    q.contains(Cmd::Detach { entity: e as usize, attr: a })
}

/// Whether a guarded removal of category attribute `c` from entity `e` is in
/// `q`.
pub open spec fn queued_cond_in(q: Seq<Cmd>, e: int, c: u64) -> bool {
    q.contains(Cmd::DetachCategoryIfInactive { entity: e as usize, category: c })
}

/// Whether some removal of category attribute `c` from entity `e` — plain or
/// guarded — is in `q`.
pub open spec fn queued_guard_in(q: Seq<Cmd>, e: int, c: u64) -> bool {
    queued_detach_in(q, e, c) || queued_cond_in(q, e, c)
}

/// Total number of attached attributes across all entities.
pub open spec fn sum_present(ents: Seq<EntityState>) -> int
    decreases ents.len(),
{
    if ents.len() == 0 {
        0
    } else {
        ents[0].present@.len() + sum_present(ents.drop_first())
    }
}

impl Store {
    /// `c` is a registered category identity.
    pub open spec fn is_category(self, c: u64) -> bool {
        cat_listed(self.cats@, c)
    }

    /// The declared state identities of registered category `c`.
    pub open spec fn declared(self, c: u64) -> Seq<u64> {
        declared_of(self.cats@, c)
    }

    /// `s` is a declared state identity of registered category `c`.
    pub open spec fn is_state_of(self, s: u64, c: u64) -> bool {
        self.is_category(c) && self.declared(c).contains(s)
    }

    /// Identity `a` already holds a hook pair.
    pub open spec fn hook_busy(self, a: u64) -> bool {
        busy_in(self.cats@, a)
    }

    /// Attribute `a` is attached to entity `e`.
    pub open spec fn attached(self, e: int, a: u64) -> bool {
        self.entities@[e].present@.contains(a)
    }

    /// Entity `e` carries a record for category `c`.
    pub open spec fn has_record(self, e: int, c: u64) -> bool {
        rec_listed(self.entities@[e].records@, c)
    }

    /// The record entity `e` carries for category `c`.
    pub open spec fn record_of(self, e: int, c: u64) -> SuperstateInfo {
        rec_of(self.entities@[e].records@, c)
    }

    /// The states of category `c` tracked as active on entity `e`; empty
    /// while no record exists.
    pub open spec fn active(self, e: int, c: u64) -> Seq<u64> {
        if self.has_record(e, c) {
            self.record_of(e, c).active()
        } else {
            Seq::empty()
        }
    }

    /// The registry is a map: category identities are unique, declared sets
    /// are duplicate-free and disjoint, and no identity serves both as a
    /// category and as a state. Declared sizes stay under `bound`.
    pub open spec fn wf_cats(self) -> bool {
        &&& forall|i: int|
            #![trigger self.cats@[i]]
            0 <= i < self.cats@.len() ==> {
                &&& self.cats@[i].states@.no_duplicates()
                &&& !self.cats@[i].states@.contains(self.cats@[i].category)
                &&& self.cats@[i].states@.len() < self.bound
            }
        &&& forall|i: int, j: int|
            #![trigger self.cats@[i], self.cats@[j]]
            0 <= i < self.cats@.len() && 0 <= j < self.cats@.len() && i != j ==> {
                &&& self.cats@[i].category != self.cats@[j].category
                &&& self.cats@[i].states@.disjoint(self.cats@[j].states@)
                &&& !self.cats@[j].states@.contains(self.cats@[i].category)
            }
    }

    /// One record slot of entity `e`: it serves a registered category, its
    /// declared set is populated with exactly that category's bundle or still
    /// empty, and it tracks only declared states.
    pub open spec fn wf_slot(self, e: int, r: int) -> bool {
        let slot = self.entities@[e].records@[r];
        &&& self.is_category(slot.category)
        &&& slot.info.wf()
        &&& (slot.info.registered() == self.declared(slot.category) || slot.info.registered().len()
            == 0)
        &&& (forall|x: u64|
            #[trigger] slot.info.active().contains(x) ==> self.declared(slot.category).contains(x))
    }

    /// Entity `e` is well formed: no attribute attached twice, one record per
    /// category, every slot well formed.
    pub open spec fn wf_entity(self, e: int) -> bool {
        let ent = self.entities@[e];
        &&& ent.present@.no_duplicates()
        &&& (forall|r: int|
            #![trigger ent.records@[r]]
            0 <= r < ent.records@.len() ==> self.wf_slot(e, r))
        &&& (forall|r1: int, r2: int|
            #![trigger ent.records@[r1], ent.records@[r2]]
            0 <= r1 < ent.records@.len() && 0 <= r2 < ent.records@.len() && r1 != r2
                ==> ent.records@[r1].category != ent.records@[r2].category)
    }

    /// Every queued command targets an existing entity.
    pub open spec fn q_wf(self, q: Seq<Cmd>) -> bool {
        forall|k: int|
            #![trigger q[k]]
            0 <= k < q.len() ==> match q[k] {
                Cmd::Detach { entity, .. } => entity < self.entities@.len(),
                Cmd::DetachCategoryIfInactive { entity, .. } => entity < self.entities@.len(),
            }
    }

    /// The mid-transaction discipline of one record slot, with the pending
    /// commands `q` as witnesses:
    /// an active state keeps the category attribute attached; a category
    /// attached with nothing active has its removal pending; of several
    /// active states all but the last attached have their removal pending;
    /// a declared state attached but not tracked has its removal pending;
    /// and every tracked state is attached.
    pub open spec fn inv_slot(self, q: Seq<Cmd>, e: int, r: int) -> bool {
        let ent = self.entities@[e];
        let slot = ent.records@[r];
        let c = slot.category;
        let acts = slot.info.active();
        &&& (acts.len() > 0 ==> ent.present@.contains(c))
        &&& ((ent.present@.contains(c) && acts.len() == 0) ==> queued_guard_in(q, e, c))
        &&& (forall|i: int, j: int|
            #![trigger acts[i], acts[j]]
            0 <= i < acts.len() && 0 <= j < acts.len() && i != j ==> (queued_detach_in(q, e, acts[i])
                || queued_detach_in(q, e, acts[j])))
        &&& (forall|s: u64|
            #[trigger] ent.present@.contains(s)
                ==> (self.declared(c).contains(s) && !acts.contains(s) ==> queued_detach_in(
                q,
                e,
                s,
            )))
        &&& (forall|s: u64| #[trigger] acts.contains(s) ==> ent.present@.contains(s))
    }

    /// While entity `e` carries no record for the category of registry entry
    /// `ci`, neither that category attribute nor any of its states is
    /// attached to `e`.
    pub open spec fn inv_nocat(self, e: int, ci: int) -> bool {
        let ent = self.entities@[e];
        let c = self.cats@[ci].category;
        !rec_listed(ent.records@, c) ==> {
            &&& !ent.present@.contains(c)
            &&& (forall|s: u64|
                #[trigger] self.cats@[ci].states@.contains(s) ==> !ent.present@.contains(s))
        }
    }

    /// The store invariant, with `q` as the pool of pending commands.
    pub open spec fn inv_q(self, q: Seq<Cmd>) -> bool {
        &&& self.wf_cats()
        &&& self.q_wf(q)
        &&& (forall|e: int|
            0 <= e < self.entities@.len() ==> #[trigger] self.wf_entity(e))
        &&& (forall|e: int, r: int|
            0 <= e < self.entities@.len() && 0 <= r < self.entities@[e].records@.len()
                ==> #[trigger] self.inv_slot(q, e, r))
        &&& (forall|e: int, ci: int|
            0 <= e < self.entities@.len() && 0 <= ci < self.cats@.len() ==> #[trigger] self.inv_nocat(
                e,
                ci,
            ))
    }

    /// The store invariant: every entity honest with respect to the pending
    /// commands of its own queue.
    pub open spec fn inv(self) -> bool {
        self.inv_q(self.queue@)
    }

    /// A tracked state that nothing pending aims at — no removal of the
    /// state itself and no plain removal of its category — outlives the
    /// flush, and so does its category attribute.
    pub open spec fn survives(self, e: int, c: u64, x: u64) -> bool {
        &&& 0 <= e < self.entities@.len()
        &&& self.is_state_of(x, c)
        &&& self.active(e, c).contains(x)
        &&& !queued_guard_in(self.queue@, e, x)
        &&& !queued_detach_in(self.queue@, e, c)
    }
}

/// A state identity is never a category identity.
pub proof fn lemma_state_not_category(s: Store, x: u64, c: u64)
    requires
        s.wf_cats(),
        s.is_state_of(x, c),
    ensures
        !s.is_category(x),
{
    let ci = cat_index(s.cats@, c);
    assert(cat_listed(s.cats@, c));
    assert(0 <= ci < s.cats@.len() && s.cats@[ci].category == c);
    assert(s.cats@[ci].states@.contains(x));
    if s.is_category(x) {
        let cj = cat_index(s.cats@, x);
        assert(cat_listed(s.cats@, x));
        assert(0 <= cj < s.cats@.len() && s.cats@[cj].category == x);
        if ci == cj {
            assert(!s.cats@[ci].states@.contains(s.cats@[ci].category));
        } else {
            assert(!s.cats@[ci].states@.contains(s.cats@[cj].category));
        }
    }
}

/// States of two different categories never share an identity.
pub proof fn lemma_states_disjoint(s: Store, x: u64, c1: u64, c2: u64)
    requires
        s.wf_cats(),
        s.is_state_of(x, c1),
        c1 != c2,
        s.is_category(c2),
    ensures
        !s.declared(c2).contains(x),
{
    let ci = cat_index(s.cats@, c1);
    assert(cat_listed(s.cats@, c1));
    assert(0 <= ci < s.cats@.len() && s.cats@[ci].category == c1);
    let cj = cat_index(s.cats@, c2);
    assert(cat_listed(s.cats@, c2));
    assert(0 <= cj < s.cats@.len() && s.cats@[cj].category == c2);
    assert(ci != cj);
    if s.declared(c2).contains(x) {
        assert(s.cats@[ci].states@.disjoint(s.cats@[cj].states@));
        let ka = choose|kk: int|
            0 <= kk < s.cats@[ci].states@.len() && s.cats@[ci].states@[kk] == x;
        let kb = choose|kk: int|
            0 <= kk < s.cats@[cj].states@.len() && s.cats@[cj].states@[kk] == x;
        assert(s.cats@[ci].states@[ka] != s.cats@[cj].states@[kb]);
    }
}

/// The registry lookup is unambiguous: any entry holding `c` is the one
/// `declared` speaks of.
pub proof fn lemma_cat_unique(s: Store, c: u64, i: int)
    requires
        s.wf_cats(),
        0 <= i < s.cats@.len(),
        s.cats@[i].category == c,
    ensures
        s.is_category(c),
        cat_index(s.cats@, c) == i,
        s.declared(c) == s.cats@[i].states@,
{
    assert(cat_listed(s.cats@, c));
    let j = cat_index(s.cats@, c);
    assert(0 <= j < s.cats@.len() && s.cats@[j].category == c);
    if i != j {
        assert(s.cats@[i].category != s.cats@[j].category);
    }
}

/// A state identity picks out one registry entry.
pub proof fn lemma_state_unique(s: Store, a: u64, i: int)
    requires
        s.wf_cats(),
        0 <= i < s.cats@.len(),
        s.cats@[i].states@.contains(a),
    ensures
        s.is_state_of(a, s.cats@[i].category),
        forall|c2: u64| #[trigger] s.is_state_of(a, c2) ==> c2 == s.cats@[i].category,
{
    lemma_cat_unique(s, s.cats@[i].category, i);
    assert forall|c2: u64| #[trigger] s.is_state_of(a, c2) implies c2 == s.cats@[i].category by {
        let j = cat_index(s.cats@, c2);
        assert(0 <= j < s.cats@.len() && s.cats@[j].category == c2);
        assert(s.cats@[j].states@.contains(a));
        if i != j {
            assert(s.cats@[i].states@.disjoint(s.cats@[j].states@));
            let ki = choose|k: int| 0 <= k < s.cats@[i].states@.len() && s.cats@[i].states@[k] == a;
            let kj = choose|k: int| 0 <= k < s.cats@[j].states@.len() && s.cats@[j].states@[k] == a;
            assert(s.cats@[i].states@[ki] != s.cats@[j].states@[kj]);
        }
    }
}

/// A slot of a well-formed entity is well formed.
pub proof fn lemma_wf_slot(s: Store, e: int, r: int)
    requires
        s.wf_entity(e),
        0 <= r < s.entities@[e].records@.len(),
    ensures
        s.wf_slot(e, r),
{
    let ent = s.entities@[e];
    assert(ent.records@[r] == ent.records@[r]);
}

/// The record lookup is unambiguous on a well-formed entity.
pub proof fn lemma_rec_unique(s: Store, e: int, c: u64, r: int)
    requires
        s.wf_entity(e),
        0 <= e < s.entities@.len(),
        0 <= r < s.entities@[e].records@.len(),
        s.entities@[e].records@[r].category == c,
    ensures
        s.has_record(e, c),
        rec_index(s.entities@[e].records@, c) == r,
        s.record_of(e, c) == s.entities@[e].records@[r].info,
{
    let recs = s.entities@[e].records@;
    assert(rec_listed(recs, c));
    let j = rec_index(recs, c);
    assert(0 <= j < recs.len() && recs[j].category == c);
    if r != j {
        assert(recs[r].category != recs[j].category);
    }
}

/// Appending a record slot for a new category leaves every other category's
/// record where it was.
pub proof fn lemma_rec_push_frame(recs: Seq<RecordSlot>, slot: RecordSlot)
    requires
        forall|r1: int, r2: int|
            #![trigger recs[r1], recs[r2]]
            0 <= r1 < recs.len() && 0 <= r2 < recs.len() && r1 != r2 ==> recs[r1].category
                != recs[r2].category,
        !rec_listed(recs, slot.category),
    ensures
        rec_listed(recs.push(slot), slot.category),
        rec_of(recs.push(slot), slot.category) == slot.info,
        forall|c: u64|
            c != slot.category ==> #[trigger] rec_listed(recs.push(slot), c) == rec_listed(
                recs,
                c,
            ),
        forall|c: u64|
            c != slot.category && rec_listed(recs, c) ==> #[trigger] rec_of(recs.push(slot), c)
                == rec_of(recs, c),
{
    let upd = recs.push(slot);
    let li = recs.len() as int;
    assert(upd[li] == slot);
    let j0 = rec_index(upd, slot.category);
    assert(0 <= j0 < upd.len() && upd[j0].category == slot.category);
    if j0 != li {
        assert(recs[j0].category == slot.category);
        assert(rec_listed(recs, slot.category));
    }
    assert forall|c: u64| c != slot.category implies #[trigger] rec_listed(upd, c) == rec_listed(
        recs,
        c,
    ) by {
        if rec_listed(upd, c) {
            let j = rec_index(upd, c);
            assert(0 <= j < upd.len() && upd[j].category == c);
            assert(j != li);
            assert(recs[j].category == c);
        }
        if rec_listed(recs, c) {
            let j = rec_index(recs, c);
            assert(upd[j].category == c);
        }
    }
    assert forall|c: u64| c != slot.category && rec_listed(recs, c) implies #[trigger] rec_of(
        upd,
        c,
    ) == rec_of(recs, c) by {
        let j1 = rec_index(recs, c);
        assert(0 <= j1 < recs.len() && recs[j1].category == c);
        assert(upd[j1].category == c);
        assert(rec_listed(upd, c));
        let j2 = rec_index(upd, c);
        assert(0 <= j2 < upd.len() && upd[j2].category == c);
        assert(j2 != li);
        assert(recs[j2].category == c);
        if j1 != j2 {
            assert(recs[j1].category != recs[j2].category);
        }
    }
}

/// Replacing the payload of one record slot leaves every other category's
/// record where it was.
pub proof fn lemma_rec_update_frame(recs: Seq<RecordSlot>, ri: int, info2: SuperstateInfo)
    requires
        forall|r1: int, r2: int|
            #![trigger recs[r1], recs[r2]]
            0 <= r1 < recs.len() && 0 <= r2 < recs.len() && r1 != r2 ==> recs[r1].category
                != recs[r2].category,
        0 <= ri < recs.len(),
    ensures
        ({
            let upd = recs.update(ri, RecordSlot { category: recs[ri].category, info: info2 });
            &&& (forall|c: u64| #[trigger] rec_listed(upd, c) == rec_listed(recs, c))
            &&& rec_of(upd, recs[ri].category) == info2
            &&& (forall|c: u64|
                c != recs[ri].category && rec_listed(recs, c) ==> #[trigger] rec_of(upd, c)
                    == rec_of(recs, c))
        }),
{
    let c0 = recs[ri].category;
    let upd = recs.update(ri, RecordSlot { category: c0, info: info2 });
    assert(upd.len() == recs.len());
    assert(forall|r: int| 0 <= r < recs.len() ==> (#[trigger] upd[r]).category == recs[r].category);
    assert forall|c: u64| #[trigger] rec_listed(upd, c) == rec_listed(recs, c) by {
        if rec_listed(upd, c) {
            let j = rec_index(upd, c);
            assert(recs[j].category == c);
        }
        if rec_listed(recs, c) {
            let j = rec_index(recs, c);
            assert(upd[j].category == c);
        }
    }
    assert(upd[ri] == RecordSlot { category: c0, info: info2 });
    let j0 = rec_index(upd, c0);
    assert(0 <= j0 < upd.len() && upd[j0].category == c0);
    if j0 != ri {
        assert(recs[j0].category != recs[ri].category);
    }
    assert(rec_of(upd, c0) == info2);
    assert forall|c: u64| c != c0 && rec_listed(recs, c) implies #[trigger] rec_of(upd, c)
        == rec_of(recs, c) by {
        let j1 = rec_index(recs, c);
        assert(0 <= j1 < recs.len() && recs[j1].category == c);
        assert(rec_listed(upd, c)) by {
            assert(upd[j1].category == c);
        }
        let j2 = rec_index(upd, c);
        assert(0 <= j2 < upd.len() && upd[j2].category == c);
        assert(recs[j2].category == c);
        if j1 != j2 {
            assert(recs[j1].category != recs[j2].category);
        }
        assert(j2 != ri);
    }
}

pub proof fn lemma_sum_present_nonneg(ents: Seq<EntityState>)
    ensures
        sum_present(ents) >= 0,
    decreases ents.len(),
{
    if ents.len() > 0 {
        lemma_sum_present_nonneg(ents.drop_first());
    }
}

/// Pending-command witnesses survive when the command pool only grows.
pub proof fn lemma_inv_q_mono(s: Store, q1: Seq<Cmd>, q2: Seq<Cmd>)
    requires
        s.inv_q(q1),
        forall|x: Cmd| #[trigger] q1.contains(x) ==> q2.contains(x),
        s.q_wf(q2),
    ensures
        s.inv_q(q2),
{
    assert forall|e: int, r: int|
        0 <= e < s.entities@.len() && 0 <= r < s.entities@[e].records@.len() implies #[trigger] s.inv_slot(
        q2,
        e,
        r,
    ) by {
        assert(s.inv_slot(q1, e, r));
        let ent = s.entities@[e];
        let slot = ent.records@[r];
        let c = slot.category;
        let acts = slot.info.active();
        if ent.present@.contains(c) && acts.len() == 0 {
            assert(queued_guard_in(q1, e, c));
            assert(queued_guard_in(q2, e, c));
        }
        assert forall|i: int, j: int|
            0 <= i < acts.len() && 0 <= j < acts.len() && i != j implies (queued_detach_in(
            q2,
            e,
            #[trigger] acts[i],
        ) || queued_detach_in(q2, e, #[trigger] acts[j])) by {
            assert(queued_detach_in(q1, e, acts[i]) || queued_detach_in(q1, e, acts[j]));
        }
        assert forall|s2: u64|
            #[trigger] ent.present@.contains(s2) && s.declared(c).contains(s2) && !acts.contains(
            s2,
        ) implies queued_detach_in(q2, e, s2) by {
            assert(queued_detach_in(q1, e, s2));
        }
    }
}

/// The entity a command aims at.
pub open spec fn cmd_entity(x: Cmd) -> int {
    match x {
        Cmd::Detach { entity, .. } => entity as int,
        Cmd::DetachCategoryIfInactive { entity, .. } => entity as int,
    }
}

/// Entities other than the touched one keep their invariant while the
/// registry stays as it was and every pending command of theirs stays in the
/// pool.
pub proof fn lemma_frame_untouched(s1: Store, s2: Store, q1: Seq<Cmd>, q2: Seq<Cmd>, touched: int)
    requires
        s1.inv_q(q1),
        s2.cats@ == s1.cats@,
        s2.bound == s1.bound,
        s1.entities@.len() <= s2.entities@.len(),
        forall|e: int|
            0 <= e < s1.entities@.len() && e != touched ==> s2.entities@[e] == s1.entities@[e],
        forall|x: Cmd|
            #[trigger] q1.contains(x) && cmd_entity(x) != touched ==> q2.contains(x),
    ensures
        s2.wf_cats(),
        forall|e: int|
            0 <= e < s1.entities@.len() && e != touched ==> #[trigger] s2.wf_entity(e),
        forall|e: int, r: int|
            0 <= e < s1.entities@.len() && e != touched && 0 <= r
                < s2.entities@[e].records@.len() ==> #[trigger] s2.inv_slot(q2, e, r),
        forall|e: int, ci: int|
            0 <= e < s1.entities@.len() && e != touched && 0 <= ci < s2.cats@.len()
                ==> #[trigger] s2.inv_nocat(e, ci),
{
    assert(s1.entities.len() == s1.entities@.len());
    assert(s2.wf_cats());
    assert forall|e: int|
        0 <= e < s1.entities@.len() && e != touched implies #[trigger] s2.wf_entity(e) by {
        assert(s1.wf_entity(e));
        let ent = s2.entities@[e];
        assert(ent == s1.entities@[e]);
        assert forall|r: int|
            0 <= r < ent.records@.len() implies s2.wf_slot(e, r) by {
            assert(s1.wf_slot(e, r));
        }
    }
    assert forall|e: int, r: int|
        0 <= e < s1.entities@.len() && e != touched && 0 <= r
            < s2.entities@[e].records@.len() implies #[trigger] s2.inv_slot(q2, e, r) by {
        assert(s1.inv_slot(q1, e, r));
        let ent = s2.entities@[e];
        assert(ent == s1.entities@[e]);
        let slot = ent.records@[r];
        let c = slot.category;
        let acts = slot.info.active();
        if ent.present@.contains(c) && acts.len() == 0 {
            assert(queued_guard_in(q1, e, c));
            if q1.contains(Cmd::Detach { entity: e as usize, attr: c }) {
                assert(cmd_entity(Cmd::Detach { entity: e as usize, attr: c }) == e);
            } else {
                assert(q1.contains(
                    Cmd::DetachCategoryIfInactive { entity: e as usize, category: c },
                ));
                assert(cmd_entity(
                    Cmd::DetachCategoryIfInactive { entity: e as usize, category: c },
                ) == e);
            }
            assert(queued_guard_in(q2, e, c));
        }
        assert forall|i: int, j: int|
            0 <= i < acts.len() && 0 <= j < acts.len() && i != j implies (queued_detach_in(
            q2,
            e,
            #[trigger] acts[i],
        ) || queued_detach_in(q2, e, #[trigger] acts[j])) by {
            assert(queued_detach_in(q1, e, acts[i]) || queued_detach_in(q1, e, acts[j]));
            if queued_detach_in(q1, e, acts[i]) {
                assert(cmd_entity(Cmd::Detach { entity: e as usize, attr: acts[i] }) == e);
            } else {
                assert(cmd_entity(Cmd::Detach { entity: e as usize, attr: acts[j] }) == e);
            }
        }
        assert forall|s2v: u64|
            #[trigger] ent.present@.contains(s2v) && s2.declared(c).contains(s2v) && !acts.contains(
            s2v,
        ) implies queued_detach_in(q2, e, s2v) by {
            assert(queued_detach_in(q1, e, s2v));
            assert(cmd_entity(Cmd::Detach { entity: e as usize, attr: s2v }) == e);
        }
    }
    assert forall|e: int, ci: int|
        0 <= e < s1.entities@.len() && e != touched && 0 <= ci < s2.cats@.len() implies #[trigger] s2.inv_nocat(
        e,
        ci,
    ) by {
        assert(s1.inv_nocat(e, ci));
        assert(s2.entities@[e] == s1.entities@[e]);
        assert(s2.cats@[ci] == s1.cats@[ci]);
    }
}

/// Replacing one entity changes the total attribute count by the difference
/// at that entity.
pub proof fn lemma_sum_present_update(ents: Seq<EntityState>, e: int, ent2: EntityState)
    requires
        0 <= e < ents.len(),
    ensures
        sum_present(ents.update(e, ent2)) == sum_present(ents) + ent2.present@.len()
            - ents[e].present@.len(),
    decreases ents.len(),
{
    let upd = ents.update(e, ent2);
    assert(upd.len() == ents.len());
    if e == 0 {
        assert(upd[0] == ent2);
        assert(upd.drop_first() =~= ents.drop_first());
    } else {
        assert(upd[0] == ents[0]);
        assert(upd.drop_first() =~= ents.drop_first().update(e - 1, ent2));
        lemma_sum_present_update(ents.drop_first(), e - 1, ent2);
    }
}

/// Popping the head of the pool keeps exactly the other commands.
pub proof fn lemma_contains_pop(q: Seq<Cmd>, x: Cmd)
    requires
        q.len() > 0,
    ensures
        q.contains(x) <==> (x == q[0] || q.remove(0).contains(x)),
{
    let rest = q.remove(0);
    assert(rest.len() == q.len() - 1);
    assert(forall|k: int| 0 <= k < rest.len() ==> #[trigger] rest[k] == q[k + 1]);
    if q.contains(x) {
        let k = choose|k: int| 0 <= k < q.len() && q[k] == x;
        if k > 0 {
            assert(rest[k - 1] == x);
        }
    }
    if rest.contains(x) {
        let k = choose|k: int| 0 <= k < rest.len() && rest[k] == x;
        assert(q[k + 1] == x);
    }
}

/// A pending removal of an attribute neither attached nor tracked can be
/// dropped from the pool.
pub proof fn lemma_inv_q_drop_detach(s: Store, q: Seq<Cmd>, e: usize, a: u64)
    requires
        s.inv_q(q.push(Cmd::Detach { entity: e, attr: a })),
        e < s.entities@.len(),
        !s.attached(e as int, a),
    ensures
        s.inv_q(q),
{
    broadcast use vstd::seq_lib::lemma_seq_contains_after_push;

    let cmdv = Cmd::Detach { entity: e, attr: a };
    let qx = q.push(cmdv);
    assert(s.entities.len() == s.entities@.len());
    assert(s.q_wf(q)) by {
        assert(forall|k: int| 0 <= k < q.len() ==> #[trigger] q[k] == qx[k]);
        assert(s.q_wf(qx));
    }
    assert forall|e2: int, r: int|
        0 <= e2 < s.entities@.len() && 0 <= r
            < s.entities@[e2].records@.len() implies #[trigger] s.inv_slot(q, e2, r) by {
        assert(s.inv_slot(qx, e2, r));
        let ent = s.entities@[e2];
        let slot = ent.records@[r];
        let c = slot.category;
        let acts = slot.info.active();
        if ent.present@.contains(c) && acts.len() == 0 {
            assert(queued_guard_in(qx, e2, c));
            if qx.contains(Cmd::Detach { entity: e2 as usize, attr: c }) {
                if (Cmd::Detach { entity: e2 as usize, attr: c }) == cmdv {
                    assert(e2 == e as int && c == a);
                    assert(false);
                } else {
                    assert(q.contains(Cmd::Detach { entity: e2 as usize, attr: c }));
                }
            } else {
                assert(qx.contains(
                    Cmd::DetachCategoryIfInactive { entity: e2 as usize, category: c },
                ));
                assert(q.contains(
                    Cmd::DetachCategoryIfInactive { entity: e2 as usize, category: c },
                ));
            }
            assert(queued_guard_in(q, e2, c));
        }
        assert forall|i: int, j: int|
            0 <= i < acts.len() && 0 <= j < acts.len() && i != j implies (queued_detach_in(
            q,
            e2,
            #[trigger] acts[i],
        ) || queued_detach_in(q, e2, #[trigger] acts[j])) by {
            assert(queued_detach_in(qx, e2, acts[i]) || queued_detach_in(qx, e2, acts[j]));
            assert(acts.contains(acts[i]) && acts.contains(acts[j]));
            assert(ent.present@.contains(acts[i]) && ent.present@.contains(acts[j]));
            if queued_detach_in(qx, e2, acts[i]) {
                if (Cmd::Detach { entity: e2 as usize, attr: acts[i] }) == cmdv {
                    assert(e2 == e as int && acts[i] == a);
                    assert(false);
                }
                assert(q.contains(Cmd::Detach { entity: e2 as usize, attr: acts[i] }));
            } else {
                if (Cmd::Detach { entity: e2 as usize, attr: acts[j] }) == cmdv {
                    assert(e2 == e as int && acts[j] == a);
                    assert(false);
                }
                assert(q.contains(Cmd::Detach { entity: e2 as usize, attr: acts[j] }));
            }
        }
        assert forall|sv: u64|
            #[trigger] ent.present@.contains(sv) && s.declared(c).contains(sv) && !acts.contains(
            sv,
        ) implies queued_detach_in(q, e2, sv) by {
            assert(queued_detach_in(qx, e2, sv));
            if (Cmd::Detach { entity: e2 as usize, attr: sv }) == cmdv {
                assert(e2 == e as int && sv == a);
                assert(false);
            }
            assert(q.contains(Cmd::Detach { entity: e2 as usize, attr: sv }));
        }
    }
}

/// A guarded category removal whose guard does not fire — category absent,
/// or a state active — can be dropped from the pool.
pub proof fn lemma_inv_q_drop_cond(s: Store, q: Seq<Cmd>, e: usize, c: u64)
    requires
        s.inv_q(q.push(Cmd::DetachCategoryIfInactive { entity: e, category: c })),
        e < s.entities@.len(),
        !s.attached(e as int, c) || s.active(e as int, c).len() > 0,
    ensures
        s.inv_q(q),
{
    broadcast use vstd::seq_lib::lemma_seq_contains_after_push;

    let cmdv = Cmd::DetachCategoryIfInactive { entity: e, category: c };
    let qx = q.push(cmdv);
    assert(s.entities.len() == s.entities@.len());
    assert(s.q_wf(q)) by {
        assert(forall|k: int| 0 <= k < q.len() ==> #[trigger] q[k] == qx[k]);
        assert(s.q_wf(qx));
    }
    assert forall|e2: int, r: int|
        0 <= e2 < s.entities@.len() && 0 <= r
            < s.entities@[e2].records@.len() implies #[trigger] s.inv_slot(q, e2, r) by {
        assert(s.inv_slot(qx, e2, r));
        let ent = s.entities@[e2];
        let slot = ent.records@[r];
        let c2 = slot.category;
        let acts = slot.info.active();
        if ent.present@.contains(c2) && acts.len() == 0 {
            assert(queued_guard_in(qx, e2, c2));
            if qx.contains(Cmd::Detach { entity: e2 as usize, attr: c2 }) {
                assert(q.contains(Cmd::Detach { entity: e2 as usize, attr: c2 }));
            } else {
                assert(qx.contains(
                    Cmd::DetachCategoryIfInactive { entity: e2 as usize, category: c2 },
                ));
                if (Cmd::DetachCategoryIfInactive { entity: e2 as usize, category: c2 }) == cmdv {
                    assert(e2 == e as int && c2 == c);
                    assert(s.wf_entity(e2));
                    lemma_rec_unique(s, e2, c2, r);
                    assert(s.active(e2, c2) == acts);
                    assert(false);
                }
                assert(q.contains(
                    Cmd::DetachCategoryIfInactive { entity: e2 as usize, category: c2 },
                ));
            }
            assert(queued_guard_in(q, e2, c2));
        }
        assert forall|i: int, j: int|
            0 <= i < acts.len() && 0 <= j < acts.len() && i != j implies (queued_detach_in(
            q,
            e2,
            #[trigger] acts[i],
        ) || queued_detach_in(q, e2, #[trigger] acts[j])) by {
            if queued_detach_in(qx, e2, acts[i]) {
                assert(q.contains(Cmd::Detach { entity: e2 as usize, attr: acts[i] }));
            } else {
                assert(queued_detach_in(qx, e2, acts[j]));
                assert(q.contains(Cmd::Detach { entity: e2 as usize, attr: acts[j] }));
            }
        }
        assert forall|sv: u64|
            #[trigger] ent.present@.contains(sv) && s.declared(c2).contains(sv) && !acts.contains(
            sv,
        ) implies queued_detach_in(q, e2, sv) by {
            assert(queued_detach_in(qx, e2, sv));
            assert(q.contains(Cmd::Detach { entity: e2 as usize, attr: sv }));
        }
    }
}

/// A pending guarded removal may be strengthened to a plain removal of the
/// same category attribute: every guard witness it gave is given by the
/// plain removal too.
pub proof fn lemma_guard_to_detach(s: Store, q: Seq<Cmd>, e: usize, c: u64)
    requires
        s.inv_q(q.push(Cmd::DetachCategoryIfInactive { entity: e, category: c })),
        e < s.entities@.len(),
    ensures
        s.inv_q(q.push(Cmd::Detach { entity: e, attr: c })),
{
    broadcast use vstd::seq_lib::lemma_seq_contains_after_push;

    let cmdv = Cmd::DetachCategoryIfInactive { entity: e, category: c };
    let newv = Cmd::Detach { entity: e, attr: c };
    let qx = q.push(cmdv);
    let qy = q.push(newv);
    assert(s.entities.len() == s.entities@.len());
    assert(s.q_wf(qy)) by {
        assert(forall|k: int| 0 <= k < q.len() ==> #[trigger] qy[k] == qx[k]);
        assert(s.q_wf(qx));
        assert(qy[q.len() as int] == newv);
    }
    assert forall|e2: int, r: int|
        0 <= e2 < s.entities@.len() && 0 <= r
            < s.entities@[e2].records@.len() implies #[trigger] s.inv_slot(qy, e2, r) by {
        assert(s.inv_slot(qx, e2, r));
        let ent = s.entities@[e2];
        let slot = ent.records@[r];
        let c2 = slot.category;
        let acts = slot.info.active();
        if ent.present@.contains(c2) && acts.len() == 0 {
            assert(queued_guard_in(qx, e2, c2));
            if qx.contains(Cmd::Detach { entity: e2 as usize, attr: c2 }) {
                assert(q.contains(Cmd::Detach { entity: e2 as usize, attr: c2 }));
                assert(qy.contains(Cmd::Detach { entity: e2 as usize, attr: c2 }));
            } else {
                assert(qx.contains(
                    Cmd::DetachCategoryIfInactive { entity: e2 as usize, category: c2 },
                ));
                if (Cmd::DetachCategoryIfInactive { entity: e2 as usize, category: c2 }) == cmdv {
                    assert(e2 == e as int && c2 == c);
                    assert(qy.contains(newv));
                    assert(qy.contains(Cmd::Detach { entity: e2 as usize, attr: c2 }));
                } else {
                    assert(q.contains(
                        Cmd::DetachCategoryIfInactive { entity: e2 as usize, category: c2 },
                    ));
                    assert(qy.contains(
                        Cmd::DetachCategoryIfInactive { entity: e2 as usize, category: c2 },
                    ));
                }
            }
            assert(queued_guard_in(qy, e2, c2));
        }
        assert forall|i: int, j: int|
            0 <= i < acts.len() && 0 <= j < acts.len() && i != j implies (queued_detach_in(
            qy,
            e2,
            #[trigger] acts[i],
        ) || queued_detach_in(qy, e2, #[trigger] acts[j])) by {
            if queued_detach_in(qx, e2, acts[i]) {
                assert(q.contains(Cmd::Detach { entity: e2 as usize, attr: acts[i] }));
                assert(qy.contains(Cmd::Detach { entity: e2 as usize, attr: acts[i] }));
            } else {
                assert(queued_detach_in(qx, e2, acts[j]));
                assert(q.contains(Cmd::Detach { entity: e2 as usize, attr: acts[j] }));
                assert(qy.contains(Cmd::Detach { entity: e2 as usize, attr: acts[j] }));
            }
        }
        assert forall|sv: u64|
            #[trigger] ent.present@.contains(sv) && s.declared(c2).contains(sv) && !acts.contains(
            sv,
        ) implies queued_detach_in(qy, e2, sv) by {
            assert(queued_detach_in(qx, e2, sv));
            assert(q.contains(Cmd::Detach { entity: e2 as usize, attr: sv }));
            assert(qy.contains(Cmd::Detach { entity: e2 as usize, attr: sv }));
        }
    }
}

/// One identity belongs to at most one category.
pub proof fn lemma_state_category_unique(s: Store, x: u64, c1: u64, c2: u64)
    requires
        s.wf_cats(),
        s.is_state_of(x, c1),
        s.is_state_of(x, c2),
    ensures
        c1 == c2,
{
    let ci = cat_index(s.cats@, c1);
    assert(cat_listed(s.cats@, c1));
    assert(0 <= ci < s.cats@.len() && s.cats@[ci].category == c1);
    assert(s.cats@[ci].states@.contains(x));
    lemma_state_unique(s, x, ci);
}

/// A category identity is not one of its own declared states.
pub proof fn lemma_category_not_own_state(s: Store, c: u64)
    requires
        s.wf_cats(),
        s.is_category(c),
    ensures
        !s.declared(c).contains(c),
{
    let ci = cat_index(s.cats@, c);
    assert(cat_listed(s.cats@, c));
    assert(0 <= ci < s.cats@.len() && s.cats@[ci].category == c);
    assert(!s.cats@[ci].states@.contains(s.cats@[ci].category));
}

/// A tracked state is attached.
pub proof fn lemma_active_attached(s: Store, e: int, c: u64, x: u64)
    requires
        s.inv(),
        0 <= e < s.entities@.len(),
        s.active(e, c).contains(x),
    ensures
        s.attached(e, x),
{
    let recs = s.entities@[e].records@;
    assert(rec_listed(recs, c));
    let r = rec_index(recs, c);
    assert(0 <= r < recs.len() && recs[r].category == c);
    assert(s.wf_entity(e));
    lemma_rec_unique(s, e, c, r);
    assert(s.inv_slot(s.queue@, e, r));
}

/// A tracked state is one of its category's declared states.
pub proof fn lemma_active_declared(s: Store, e: int, c: u64, x: u64)
    requires
        s.inv(),
        0 <= e < s.entities@.len(),
        s.active(e, c).contains(x),
    ensures
        s.is_state_of(x, c),
{
    let recs = s.entities@[e].records@;
    assert(rec_listed(recs, c));
    let r = rec_index(recs, c);
    assert(0 <= r < recs.len() && recs[r].category == c);
    assert(s.wf_entity(e));
    lemma_rec_unique(s, e, c, r);
    lemma_wf_slot(s, e, r);
    assert(s.declared(c).contains(x));
}

/// The invariant does not depend on the store's own queue field: any store
/// with the same registry and entities satisfies it for the same pool.
pub proof fn lemma_inv_q_requeue(s1: Store, s2: Store, q: Seq<Cmd>)
    requires
        s1.inv_q(q),
        s2.cats == s1.cats,
        s2.entities == s1.entities,
        s2.bound == s1.bound,
    ensures
        s2.inv_q(q),
{
    assert(s2.cats@ == s1.cats@);
    assert(s2.entities@ == s1.entities@);
    assert(s2.wf_cats());
    assert forall|e: int| 0 <= e < s2.entities@.len() implies #[trigger] s2.wf_entity(e) by {
        assert(s1.wf_entity(e));
        assert forall|r: int|
            0 <= r < s2.entities@[e].records@.len() implies s2.wf_slot(e, r) by {
            lemma_wf_slot(s1, e, r);
        }
    }
    assert forall|e: int, r: int|
        0 <= e < s2.entities@.len() && 0 <= r
            < s2.entities@[e].records@.len() implies #[trigger] s2.inv_slot(q, e, r) by {
        assert(s1.inv_slot(q, e, r));
    }
    assert forall|e: int, ci: int|
        0 <= e < s2.entities@.len() && 0 <= ci < s2.cats@.len() implies #[trigger] s2.inv_nocat(
        e,
        ci,
    ) by {
        assert(s1.inv_nocat(e, ci));
    }
}

/// What role an attribute identity plays in the registry.
pub enum RoleHit {
    /// A declared state; the index of its category's registry entry.
    StateOf(usize),
    /// A category identity; the index of its registry entry.
    CategoryAt(usize),
    /// No hook pair installed for this identity.
    Unhooked,
}

/// Scans the registry for the hook pair of `a`.
fn lookup_role(cats: &Vec<CategoryEntry>, a: u64) -> (r: RoleHit)
    ensures
        match r {
            RoleHit::StateOf(ci) => ci < cats@.len() && cats@[ci as int].states@.contains(a),
            RoleHit::CategoryAt(ci) => ci < cats@.len() && cats@[ci as int].category == a,
            RoleHit::Unhooked => !busy_in(cats@, a),
        },
{
    let mut i: usize = 0;
    while i < cats.len()
        invariant
            i <= cats@.len(),
            forall|k: int|
                #![trigger cats@[k]]
                0 <= k < i ==> cats@[k].category != a && !cats@[k].states@.contains(a),
        decreases cats@.len() - i,
    {
        if cats[i].category == a {
            return RoleHit::CategoryAt(i);
        }
        if contains_id(&cats[i].states, a) {
            return RoleHit::StateOf(i);
        }
        i = i + 1;
    }
    RoleHit::Unhooked
}

/// Whether identity `a` already holds a hook pair.
fn busy_check(cats: &Vec<CategoryEntry>, a: u64) -> (r: bool)
    ensures
        r == busy_in(cats@, a),
{
    match lookup_role(cats, a) {
        RoleHit::StateOf(_) => true,
        RoleHit::CategoryAt(_) => true,
        RoleHit::Unhooked => false,
    }
}

/// Scans an entity's record slots for the one serving category `c`.
fn find_record(recs: &Vec<RecordSlot>, c: u64) -> (r: Option<usize>)
    ensures
        match r {
            Some(i) => i < recs@.len() && recs@[i as int].category == c,
            None => !rec_listed(recs@, c),
        },
{
    let mut i: usize = 0;
    while i < recs.len()
        invariant
            i <= recs@.len(),
            forall|k: int| 0 <= k < i ==> #[trigger] recs@[k].category != c,
        decreases recs@.len() - i,
    {
        if recs[i].category == c {
            return Some(i);
        }
        i = i + 1;
    }
    None
}

impl Store {
    /// A fresh store: nothing registered, no entities, nothing pending.
    pub fn new() -> (s: Store)
        ensures
            s.inv(),
            s.cats@.len() == 0,
            s.entities@.len() == 0,
            s.queue@.len() == 0,
    {
        Store { cats: Vec::new(), entities: Vec::new(), queue: Vec::new(), bound: 1 }
    }

    /// Creates one entity with nothing attached, and returns its identifier.
    pub fn spawn(&mut self) -> (e: usize)
        requires
            old(self).inv(),
        ensures
            final(self).inv(),
            e == old(self).entities@.len(),
            final(self).entities@.len() == old(self).entities@.len() + 1,
            final(self).cats == old(self).cats,
            final(self).bound == old(self).bound,
            final(self).queue == old(self).queue,
            forall|e2: int|
                0 <= e2 < old(self).entities@.len() ==> final(self).entities@[e2] == old(
                    self,
                ).entities@[e2],
            final(self).entities@[e as int].present@.len() == 0,
            final(self).entities@[e as int].records@.len() == 0,
    {
        let e = self.entities.len();
        self.entities.push(EntityState { present: Vec::new(), records: Vec::new() });
        proof {
            let s1 = *old(self);
            let s2 = *self;
            let q = s1.queue@;
            lemma_frame_untouched(s1, s2, q, q, e as int);
            assert forall|k: int| 0 <= k < q.len() implies match #[trigger] q[k] {
                Cmd::Detach { entity, .. } => entity < s2.entities@.len(),
                Cmd::DetachCategoryIfInactive { entity, .. } => entity < s2.entities@.len(),
            } by {
                assert(s1.q_wf(q));
            }
            assert(s2.q_wf(q));
            assert(s2.wf_entity(e as int));
            assert forall|ci: int| 0 <= ci < s2.cats@.len() implies s2.inv_nocat(e as int, ci) by {
                assert(s2.entities@[e as int].present@.len() == 0);
            }
            assert(s2.inv());
        }
        e
    }
}

/// Installs the four hooks for one `(category, states)` pair, as a one-time
/// setup, and records the pair in the registry.
///
/// The store allows one hook pair per attribute identity: when any state
/// identity, or the category identity, already holds one — reused by another
/// category, say — registration fails naming the first such identity, in
/// bundle order, and installs nothing. The identities must not be attached to
/// any entity yet; the host store refuses hooks for attributes already in
/// use.
pub fn register_hooks(store: &mut Store, category: u64, states: &Vec<u64>) -> (r: Result<
    (),
    HookBusyError,
>)
    requires
        old(store).inv(),
        states@.no_duplicates(),
        !states@.contains(category),
        states@.len() < usize::MAX,
        forall|e: int|
            0 <= e < old(store).entities@.len() ==> !old(store).attached(e, category),
        forall|e: int, s: u64|
            0 <= e < old(store).entities@.len() && states@.contains(s) ==> !old(store).attached(
                e,
                s,
            ),
    ensures
        final(store).inv(),
        final(store).entities == old(store).entities,
        final(store).queue == old(store).queue,
        match r {
            Ok(()) => {
                &&& !old(store).hook_busy(category)
                &&& (forall|s: u64| states@.contains(s) ==> !old(store).hook_busy(s))
                &&& final(store).is_category(category)
                &&& final(store).declared(category) == states@
                &&& (forall|c2: u64|
                    c2 != category ==> final(store).is_category(c2) == old(store).is_category(c2))
                &&& (forall|c2: u64|
                    c2 != category && old(store).is_category(c2) ==> final(store).declared(c2)
                        == old(store).declared(c2))
                &&& final(store).cats@.len() == old(store).cats@.len() + 1
            },
            Err(err) => {
                &&& *final(store) == *old(store)
                &&& old(store).hook_busy(err.0)
                &&& (err.0 == category || states@.contains(err.0))
                &&& ((exists|i: int|
                    0 <= i < states@.len() && states@[i] == err.0 && (forall|j: int|
                        0 <= j < i ==> !old(store).hook_busy(states@[j]))) || (err.0 == category
                    && (forall|j: int|
                    0 <= j < states@.len() ==> !old(store).hook_busy(states@[j]))))
            },
        },
{
    let mut i: usize = 0;
    while i < states.len()
        invariant
            i <= states@.len(),
            forall|k: int| 0 <= k < i ==> !busy_in(store.cats@, #[trigger] states@[k]),
            *store == *old(store),
            old(store).inv(),
        decreases states@.len() - i,
    {
        if busy_check(&store.cats, states[i]) {
            return Err(HookBusyError(states[i]));
        }
        i = i + 1;
    }
    if busy_check(&store.cats, category) {
        return Err(HookBusyError(category));
    }
    if store.bound < states.len() + 1 {
        store.bound = states.len() + 1;
    }
    let entry = CategoryEntry { category, states: copy_ids(states) };
    store.cats.push(entry);
    proof {
        let s1 = *old(store);
        let s2 = *store;
        let li = s1.cats@.len() as int;
        assert(s2.cats@ =~= s1.cats@.push(CategoryEntry { category, states: entry.states }));
        assert(s2.cats@[li].category == category);
        assert(s2.cats@[li].states@ == states@);
        assert(forall|k: int| 0 <= k < li ==> s2.cats@[k] == s1.cats@[k]);
        // the registry stays a well-formed map
        assert forall|i2: int, j2: int|
            0 <= i2 < s2.cats@.len() && 0 <= j2 < s2.cats@.len() && i2 != j2 implies {
            &&& s2.cats@[i2].category != s2.cats@[j2].category
            &&& s2.cats@[i2].states@.disjoint(s2.cats@[j2].states@)
            &&& !s2.cats@[j2].states@.contains(s2.cats@[i2].category)
        } by {
            if i2 < li && j2 < li {
                assert(s1.wf_cats());
            } else if i2 == li {
                // the new entry against an old one
                assert(!busy_in(s1.cats@, category));
                assert forall|k: int, l: int|
                    0 <= k < s2.cats@[i2].states@.len() && 0 <= l
                        < s2.cats@[j2].states@.len() implies s2.cats@[i2].states@[k]
                    != s2.cats@[j2].states@[l] by {
                    let sv = s2.cats@[i2].states@[k];
                    assert(states@.contains(sv));
                    assert(!busy_in(s1.cats@, sv));
                }
                if s2.cats@[j2].states@.contains(category) {
                    assert(busy_in(s1.cats@, category));
                }
            } else {
                assert(j2 == li);
                assert(!busy_in(s1.cats@, category));
                assert forall|k: int, l: int|
                    0 <= k < s2.cats@[i2].states@.len() && 0 <= l
                        < s2.cats@[j2].states@.len() implies s2.cats@[i2].states@[k]
                    != s2.cats@[j2].states@[l] by {
                    let sv = s2.cats@[j2].states@[l];
                    assert(states@.contains(sv));
                    assert(!busy_in(s1.cats@, sv));
                }
                if s2.cats@[j2].states@.contains(s2.cats@[i2].category) {
                    let cv = s2.cats@[i2].category;
                    assert(states@.contains(cv));
                    assert(!busy_in(s1.cats@, cv));
                    assert(busy_in(s1.cats@, cv));
                }
            }
        }
        assert(s2.wf_cats());
        lemma_cat_unique(s2, category, li);
        // old categories keep their declared sets
        assert forall|c2: u64| c2 != category && s1.is_category(c2) implies s2.is_category(c2)
            && s2.declared(c2) == s1.declared(c2) by {
            let i0 = cat_index(s1.cats@, c2);
            assert(0 <= i0 < s1.cats@.len() && s1.cats@[i0].category == c2);
            lemma_cat_unique(s2, c2, i0);
            lemma_cat_unique(s1, c2, i0);
        }
        assert forall|c2: u64| c2 != category && s2.is_category(c2) implies s1.is_category(c2) by {
            let i0 = cat_index(s2.cats@, c2);
            assert(0 <= i0 < s2.cats@.len() && s2.cats@[i0].category == c2);
            assert(i0 != li);
            assert(s1.cats@[i0].category == c2);
        }
        // every entity keeps its invariant
        assert forall|e: int| 0 <= e < s2.entities@.len() implies #[trigger] s2.wf_entity(e) by {
            assert(s1.wf_entity(e));
            let ent = s2.entities@[e];
            assert(ent == s1.entities@[e]);
            assert forall|r: int| 0 <= r < ent.records@.len() implies s2.wf_slot(e, r) by {
                lemma_wf_slot(s1, e, r);
                let slot = ent.records@[r];
                assert(slot.category != category) by {
                    if slot.category == category {
                        let i0 = cat_index(s1.cats@, category);
                        assert(cat_listed(s1.cats@, category));
                        assert(0 <= i0 < s1.cats@.len() && s1.cats@[i0].category == category);
                        assert(busy_in(s1.cats@, category));
                    }
                }
                assert(s2.is_category(slot.category) && s2.declared(slot.category) == s1.declared(
                    slot.category,
                ));
            }
        }
        assert forall|e: int, r: int|
            0 <= e < s2.entities@.len() && 0 <= r
                < s2.entities@[e].records@.len() implies #[trigger] s2.inv_slot(
            s2.queue@,
            e,
            r,
        ) by {
            assert(s1.inv_slot(s1.queue@, e, r));
            assert(s1.wf_entity(e));
            lemma_wf_slot(s1, e, r);
            let slot = s2.entities@[e].records@[r];
            assert(slot.category != category) by {
                if slot.category == category {
                    let i0 = cat_index(s1.cats@, category);
                    assert(cat_listed(s1.cats@, category));
                    assert(0 <= i0 < s1.cats@.len() && s1.cats@[i0].category == category);
                    assert(busy_in(s1.cats@, category));
                }
            }
            assert(s2.declared(slot.category) == s1.declared(slot.category));
        }
        assert forall|e: int, ci: int|
            0 <= e < s2.entities@.len() && 0 <= ci < s2.cats@.len() implies #[trigger] s2.inv_nocat(
            e,
            ci,
        ) by {
            if ci < li {
                assert(s1.inv_nocat(e, ci));
                assert(s2.cats@[ci] == s1.cats@[ci]);
            } else {
                // the new category: nothing of it is attached anywhere yet
                assert(!s1.attached(e, category));
                assert forall|s: u64|
                    s2.cats@[ci].states@.contains(s) implies !s2.entities@[e].present@.contains(
                    s,
                ) by {
                    assert(states@.contains(s));
                    assert(!s1.attached(e, s));
                }
            }
        }
        assert(s2.inv());
    }
    Ok(())
}

impl Store {
    /// Attaches an attribute that holds no hook pair: plain structural
    /// attach, no record, no commands.
    fn attach_plain(&mut self, e: usize, a: u64)
        requires
            old(self).inv(),
            e < old(self).entities@.len(),
            !old(self).hook_busy(a),
            !old(self).attached(e as int, a),
        ensures
            final(self).inv(),
            final(self).cats == old(self).cats,
            final(self).bound == old(self).bound,
            final(self).queue == old(self).queue,
            final(self).entities@.len() == old(self).entities@.len(),
            forall|e2: int|
                0 <= e2 < old(self).entities@.len() && e2 != e as int ==> final(self).entities@[e2]
                    == old(self).entities@[e2],
            final(self).entities@[e as int].records == old(self).entities@[e as int].records,
            final(self).attached(e as int, a),
            forall|a2: u64|
                a2 != a ==> final(self).attached(e as int, a2) == old(self).attached(e as int, a2),
    {
        broadcast use vstd::seq_lib::lemma_seq_contains_after_push;

        self.entities[e].present.push(a);
        proof {
            let s0 = *old(self);
            let s2 = *self;
            let ei = e as int;
            let q = s0.queue@;
            lemma_frame_untouched(s0, s2, q, q, ei);
            assert(s2.q_wf(q)) by {
                assert forall|k: int| 0 <= k < q.len() implies match #[trigger] q[k] {
                    Cmd::Detach { entity, .. } => entity < s2.entities@.len(),
                    Cmd::DetachCategoryIfInactive { entity, .. } => entity < s2.entities@.len(),
                } by {
                    assert(s0.q_wf(q));
                }
            }
            let ent0 = s0.entities@[ei];
            let ent2 = s2.entities@[ei];
            assert(ent2.present@ == ent0.present@.push(a));
            assert(ent2.records == ent0.records);
            // a holds no hook pair, so no registry entry mentions it
            assert forall|i: int| 0 <= i < s0.cats@.len() implies (#[trigger] s0.cats@[i]).category
                != a && !s0.cats@[i].states@.contains(a) by {
                if s0.cats@[i].category == a || s0.cats@[i].states@.contains(a) {
                    assert(busy_in(s0.cats@, a));
                }
            }
            assert(s2.wf_entity(ei)) by {
                assert(s0.wf_entity(ei));
                assert(ent2.present@.no_duplicates());
                assert forall|r: int| 0 <= r < ent2.records@.len() implies s2.wf_slot(ei, r) by {
                    lemma_wf_slot(s0, ei, r);
                }
            }
            assert forall|r: int| 0 <= r < ent2.records@.len() implies s2.inv_slot(q, ei, r) by {
                assert(s0.inv_slot(q, ei, r));
                assert(s0.wf_entity(ei));
                lemma_wf_slot(s0, ei, r);
                let slot = ent2.records@[r];
                let c = slot.category;
                let acts = slot.info.active();
                assert(c != a) by {
                    let i0 = cat_index(s0.cats@, c);
                    assert(cat_listed(s0.cats@, c));
                    assert(0 <= i0 < s0.cats@.len() && s0.cats@[i0].category == c);
                }
                assert forall|s: u64|
                    #[trigger] ent2.present@.contains(s) && s2.declared(c).contains(s)
                        && !acts.contains(s) implies queued_detach_in(q, ei, s) by {
                    assert(s != a) by {
                        if s == a {
                            let i0 = cat_index(s0.cats@, c);
                            assert(cat_listed(s0.cats@, c));
                            assert(0 <= i0 < s0.cats@.len() && s0.cats@[i0].category == c);
                            assert(s0.cats@[i0].states@.contains(a));
                        }
                    }
                    assert(ent0.present@.contains(s));
                }
            }
            assert forall|ci: int| 0 <= ci < s2.cats@.len() implies s2.inv_nocat(ei, ci) by {
                assert(s0.inv_nocat(ei, ci));
                assert(s0.cats@[ci].category != a && !s0.cats@[ci].states@.contains(a));
            }
            assert(s2.inv());
        }
    }
    /// Attaches a category attribute directly. The record is brought into
    /// existence first, as the required-attribute relationship would do; then
    /// the category's own attach hook runs its guard: with no state active,
    /// the category schedules its own removal, superseded only if a state
    /// attach re-satisfies the invariant within the same flush.
    fn attach_category(&mut self, e: usize, ci: usize)
        requires
            old(self).inv(),
            e < old(self).entities@.len(),
            ci < old(self).cats@.len(),
            !old(self).attached(e as int, old(self).cats@[ci as int].category),
        ensures
            final(self).inv(),
            final(self).cats == old(self).cats,
            final(self).bound == old(self).bound,
            final(self).entities@.len() == old(self).entities@.len(),
            forall|e2: int|
                0 <= e2 < old(self).entities@.len() && e2 != e as int ==> final(self).entities@[e2]
                    == old(self).entities@[e2],
            forall|x: Cmd|
                #[trigger] old(self).queue@.contains(x) ==> final(self).queue@.contains(x),
            forall|c2: u64|
                #[trigger] old(self).has_record(e as int, c2) ==> final(self).has_record(
                    e as int,
                    c2,
                ),
            ({
                let c = old(self).cats@[ci as int].category;
                &&& final(self).attached(e as int, c)
                &&& final(self).has_record(e as int, c)
                &&& (forall|a2: u64|
                    a2 != c ==> final(self).attached(e as int, a2) == old(self).attached(
                        e as int,
                        a2,
                    ))
                &&& (forall|c3: u64|
                    final(self).active(e as int, c3) == old(self).active(e as int, c3))
            }),
            // nothing new is deferred but possibly the category's own guard
            forall|e3: int, a3: u64|
                queued_detach_in(final(self).queue@, e3, a3) ==> queued_detach_in(
                    old(self).queue@,
                    e3,
                    a3,
                ),
            forall|e3: int, c3: u64|
                0 <= e3 < old(self).entities@.len() && queued_cond_in(
                    final(self).queue@,
                    e3,
                    c3,
                ) && !queued_cond_in(old(self).queue@, e3, c3) ==> e3 == e as int && c3 == old(
                    self,
                ).cats@[ci as int].category,
    {
        broadcast use vstd::seq_lib::lemma_seq_contains_after_push;

        let ghost s0 = *old(self);
        let ghost ei = e as int;
        let ghost recs0 = s0.entities@[ei].records@;
        let c = self.cats[ci].category;
        proof {
            assert(s0.entities.len() == s0.entities@.len());
            assert(s0.wf_entity(ei));
            lemma_cat_unique(s0, c, ci as int);
        }
        let ri: usize = match find_record(&self.entities[e].records, c) {
            Some(ri) => ri,
            None => {
                let ri = self.entities[e].records.len();
                self.entities[e].records.push(
                    RecordSlot { category: c, info: SuperstateInfo::default() },
                );
                ri
            },
        };
        let ghost recs2 = self.entities@[ei].records@;
        proof {
            if recs2 != recs0 {
                lemma_rec_push_frame(
                    recs0,
                    RecordSlot { category: c, info: recs2[recs2.len() - 1].info },
                );
                assert(recs2 =~= recs0.push(recs2[recs2.len() - 1]));
            }
            assert(ri < recs2.len() && recs2[ri as int].category == c);
            assert(forall|r: int| 0 <= r < recs0.len() ==> recs2[r] == #[trigger] recs0[r]);
            assert(rec_listed(recs2, c));
            assert forall|r1: int, r2: int|
                0 <= r1 < recs2.len() && 0 <= r2 < recs2.len() && r1 != r2 implies (
            #[trigger] recs2[r1]).category != (#[trigger] recs2[r2]).category by {
                if r1 < recs0.len() && r2 < recs0.len() {
                } else if r1 == recs0.len() as int {
                    if recs2[r2].category == c {
                        assert(rec_listed(recs0, c));
                    }
                } else if r2 == recs0.len() as int {
                    if recs2[r1].category == c {
                        assert(rec_listed(recs0, c));
                    }
                }
            }
            assert(forall|c2: u64|
                c2 != c ==> #[trigger] rec_listed(recs2, c2) == rec_listed(recs0, c2));
            assert(forall|c2: u64|
                c2 != c && rec_listed(recs0, c2) ==> #[trigger] rec_of(recs2, c2) == rec_of(
                    recs0,
                    c2,
                ));
            // the slot's payload: either the old record, or a fresh empty one
            if rec_listed(recs0, c) {
                lemma_rec_unique(s0, ei, c, ri as int);
                assert(recs2 == recs0);
                assert(s0.wf_slot(ei, ri as int)) by { lemma_wf_slot(s0, ei, ri as int) }
            } else {
                assert(recs2[ri as int].info.active().len() == 0);
                assert(recs2[ri as int].info.registered().len() == 0);
            }
        }
        self.entities[e].present.push(c);
        let guard = on_add_superstate(&self.entities[e].records[ri].info);
        if guard {
            self.queue.push(Cmd::DetachCategoryIfInactive { entity: e, category: c });
        }
        proof {
            let s2 = *self;
            let q0 = s0.queue@;
            let q2 = s2.queue@;
            let present0 = s0.entities@[ei].present@;
            let present2 = s2.entities@[ei].present@;
            let acts = recs2[ri as int].info.active();
            assert(s2.entities@[ei].records@ == recs2);
            assert(present2 == present0.push(c));
            assert forall|x: Cmd| #[trigger] q0.contains(x) implies q2.contains(x) by {}
            lemma_frame_untouched(s0, s2, q0, q2, ei);
            assert(s2.q_wf(q2)) by {
                assert forall|k: int| 0 <= k < q2.len() implies match #[trigger] q2[k] {
                    Cmd::Detach { entity, .. } => entity < s2.entities@.len(),
                    Cmd::DetachCategoryIfInactive { entity, .. } => entity < s2.entities@.len(),
                } by {
                    if k < q0.len() {
                        assert(s0.q_wf(q0));
                        assert(q2[k] == q0[k]);
                    }
                }
            }
            // the guard leaves a pending removal whenever nothing is active
            assert((present2.contains(c) && acts.len() == 0) ==> queued_guard_in(q2, ei, c)) by {
                if acts.len() == 0 {
                    assert(guard);
                    assert(q2[q2.len() - 1] == (Cmd::DetachCategoryIfInactive {
                        entity: e,
                        category: c,
                    }));
                    assert(q2.contains(
                        Cmd::DetachCategoryIfInactive { entity: e, category: c },
                    ));
                }
            }
            assert(s2.wf_entity(ei)) by {
                assert(present2.no_duplicates());
                assert forall|r: int| 0 <= r < recs2.len() implies s2.wf_slot(ei, r) by {
                    if r == ri as int && !rec_listed(recs0, c) {
                        assert(s2.is_category(c));
                    } else {
                        lemma_wf_slot(s0, ei, r);
                        assert(recs2[r] == recs0[r]);
                        assert(s2.declared(recs0[r].category) == s0.declared(recs0[r].category));
                    }
                }
            }
            assert forall|r: int| 0 <= r < recs2.len() implies s2.inv_slot(q2, ei, r) by {
                let slot = recs2[r];
                let c2 = slot.category;
                let acts2 = slot.info.active();
                if r < recs0.len() {
                    assert(s0.inv_slot(q0, ei, r));
                    lemma_wf_slot(s0, ei, r);
                    assert(slot == recs0[r]);
                    if c2 != c {
                        // untouched slot: its category is some other identity
                        assert(c2 != c);
                        assert forall|s: u64|
                            #[trigger] present2.contains(s) && s2.declared(c2).contains(s)
                                && !acts2.contains(s) implies queued_detach_in(q2, ei, s) by {
                            assert(s != c) by {
                                if s == c {
                                    let cj = cat_index(s0.cats@, c2);
                                    assert(cat_listed(s0.cats@, c2));
                                    assert(0 <= cj < s0.cats@.len() && s0.cats@[cj].category
                                        == c2);
                                    assert(cj != ci as int);
                                    assert(!s0.cats@[cj].states@.contains(
                                        s0.cats@[ci as int].category,
                                    ));
                                }
                            }
                            assert(present0.contains(s));
                            assert(queued_detach_in(q0, ei, s));
                        }
                        assert((present2.contains(c2) && acts2.len() == 0) ==> queued_guard_in(
                            q2,
                            ei,
                            c2,
                        )) by {
                            if present2.contains(c2) && acts2.len() == 0 {
                                assert(present0.contains(c2));
                                assert(queued_guard_in(q0, ei, c2));
                            }
                        }
                    } else {
                        // the record already served this category
                        assert(r == ri as int);
                        assert forall|s: u64|
                            #[trigger] present2.contains(s) && s2.declared(c2).contains(s)
                                && !acts2.contains(s) implies queued_detach_in(q2, ei, s) by {
                            assert(s != c);
                            assert(present0.contains(s));
                            assert(queued_detach_in(q0, ei, s));
                        }
                    }
                } else {
                    // the freshly created record: nothing active, nothing declared present
                    assert(r == ri as int && c2 == c && !rec_listed(recs0, c));
                    assert(acts2.len() == 0);
                    assert(s0.inv_nocat(ei, ci as int));
                    assert forall|s: u64|
                        #[trigger] present2.contains(s) && s2.declared(c2).contains(s)
                            && !acts2.contains(s) implies queued_detach_in(q2, ei, s) by {
                        assert(s != c);
                        assert(present0.contains(s));
                        assert(s0.cats@[ci as int].states@.contains(s));
                        assert(false);
                    }
                }
            }
            assert forall|ci2: int| 0 <= ci2 < s2.cats@.len() implies s2.inv_nocat(ei, ci2) by {
                let c2 = s2.cats@[ci2].category;
                if c2 == c {
                    assert(rec_listed(recs2, c));
                } else {
                    assert(s0.inv_nocat(ei, ci2));
                    if !rec_listed(recs2, c2) {
                        assert(!rec_listed(recs0, c2));
                        assert(!present0.contains(c2));
                        assert forall|s: u64|
                            #[trigger] s2.cats@[ci2].states@.contains(s) implies !present2.contains(
                            s,
                        ) by {
                            assert(!present0.contains(s));
                            assert(s != c) by {
                                if s == c {
                                    assert(ci2 != ci as int);
                                    assert(!s0.cats@[ci2].states@.contains(
                                        s0.cats@[ci as int].category,
                                    ));
                                }
                            }
                        }
                    }
                }
            }
            assert(s2.inv());
            // the caller-facing shape
            lemma_rec_unique(s2, ei, c, ri as int);
            assert(s2.active(ei, c) == s0.active(ei, c)) by {
                if rec_listed(recs0, c) {
                    lemma_rec_unique(s0, ei, c, ri as int);
                } else {
                    assert(s2.active(ei, c) =~= Seq::<u64>::empty());
                }
            }
            assert forall|c3: u64| s2.active(ei, c3) == s0.active(ei, c3) by {
                if c3 != c {
                    if rec_listed(recs0, c3) {
                        assert(rec_of(recs2, c3) == rec_of(recs0, c3));
                    }
                }
            }
            assert forall|c2: u64| #[trigger] s0.has_record(ei, c2) implies s2.has_record(
                ei,
                c2,
            ) by {}
            assert forall|e3: int, a3: u64|
                queued_detach_in(q2, e3, a3) implies queued_detach_in(q0, e3, a3) by {
                if guard {
                    assert(q2 == q0.push(
                        Cmd::DetachCategoryIfInactive { entity: e, category: c },
                    ));
                }
            }
            assert forall|e3: int, c3: u64|
                0 <= e3 < s0.entities@.len() && queued_cond_in(q2, e3, c3) && !queued_cond_in(
                q0,
                e3,
                c3,
            ) implies e3 == ei && c3 == c by {
                assert(q2.contains(
                    Cmd::DetachCategoryIfInactive { entity: e3 as usize, category: c3 },
                ));
                assert((Cmd::DetachCategoryIfInactive { entity: e3 as usize, category: c3 })
                    == (Cmd::DetachCategoryIfInactive { entity: e, category: c }));
                assert(e3 as usize == e && c3 == c);
            }
        }
    }

    /// Attaches a state attribute of registry entry `ci`. The record and the
    /// category attribute are brought into existence first, as the
    /// required-attribute relationships would do, and only then does the
    /// state's own attach hook run: it tracks the new state and schedules
    /// eviction of every other tracked one — the last state attached wins.
    fn attach_state(&mut self, e: usize, ci: usize, a: u64)
        requires
            old(self).inv(),
            e < old(self).entities@.len(),
            ci < old(self).cats@.len(),
            old(self).cats@[ci as int].states@.contains(a),
            !old(self).attached(e as int, a),
        ensures
            final(self).inv(),
            final(self).cats == old(self).cats,
            final(self).bound == old(self).bound,
            final(self).entities@.len() == old(self).entities@.len(),
            forall|e2: int|
                0 <= e2 < old(self).entities@.len() && e2 != e as int ==> final(self).entities@[e2]
                    == old(self).entities@[e2],
            forall|x: Cmd|
                #[trigger] old(self).queue@.contains(x) ==> final(self).queue@.contains(x),
            forall|c2: u64|
                #[trigger] old(self).has_record(e as int, c2) ==> final(self).has_record(
                    e as int,
                    c2,
                ),
            final(self).attached(e as int, a),
            ({
                let c = old(self).cats@[ci as int].category;
                &&& final(self).active(e as int, c) == old(self).active(e as int, c).push(a)
                &&& final(self).attached(e as int, c)
                &&& final(self).has_record(e as int, c)
                &&& final(self).record_of(e as int, c).registered() == old(self).declared(c)
                &&& (forall|a2: u64|
                    a2 != a && a2 != c ==> final(self).attached(e as int, a2) == old(
                        self,
                    ).attached(e as int, a2))
                &&& (forall|c3: u64|
                    c3 != c ==> final(self).active(e as int, c3) == old(self).active(e as int, c3))
            }),
            // what was newly deferred: evictions of states tracked before,
            // and possibly the category's own guard
            forall|e3: int, a3: u64|
                0 <= e3 < old(self).entities@.len() && queued_detach_in(
                    final(self).queue@,
                    e3,
                    a3,
                ) && !queued_detach_in(old(self).queue@, e3, a3) ==> e3 == e as int && old(
                    self,
                ).active(e as int, old(self).cats@[ci as int].category).contains(a3),
            forall|e3: int, c3: u64|
                0 <= e3 < old(self).entities@.len() && queued_cond_in(
                    final(self).queue@,
                    e3,
                    c3,
                ) && !queued_cond_in(old(self).queue@, e3, c3) ==> e3 == e as int && c3 == old(
                    self,
                ).cats@[ci as int].category,
    {
        broadcast use vstd::seq_lib::lemma_seq_contains_after_push;

        let ghost s0 = *old(self);
        let ghost ei = e as int;
        let ghost recs0 = s0.entities@[ei].records@;
        let c = self.cats[ci].category;
        proof {
            assert(s0.entities.len() == s0.entities@.len());
            assert(s0.wf_entity(ei));
            lemma_cat_unique(s0, c, ci as int);
            assert(a != c) by {
                assert(!s0.cats@[ci as int].states@.contains(s0.cats@[ci as int].category));
            }
        }
        let ri: usize = match find_record(&self.entities[e].records, c) {
            Some(ri) => ri,
            None => {
                let ri = self.entities[e].records.len();
                self.entities[e].records.push(
                    RecordSlot { category: c, info: SuperstateInfo::default() },
                );
                ri
            },
        };
        let ghost recs2 = self.entities@[ei].records@;
        proof {
            if recs2 != recs0 {
                lemma_rec_push_frame(
                    recs0,
                    RecordSlot { category: c, info: recs2[recs2.len() - 1].info },
                );
                assert(recs2 =~= recs0.push(recs2[recs2.len() - 1]));
            }
            assert(ri < recs2.len() && recs2[ri as int].category == c);
            assert(forall|r: int| 0 <= r < recs0.len() ==> recs2[r] == #[trigger] recs0[r]);
            assert(rec_listed(recs2, c));
            assert forall|r1: int, r2: int|
                0 <= r1 < recs2.len() && 0 <= r2 < recs2.len() && r1 != r2 implies (
            #[trigger] recs2[r1]).category != (#[trigger] recs2[r2]).category by {
                if r1 < recs0.len() && r2 < recs0.len() {
                } else if r1 == recs0.len() as int {
                    if recs2[r2].category == c {
                        assert(rec_listed(recs0, c));
                    }
                } else if r2 == recs0.len() as int {
                    if recs2[r1].category == c {
                        assert(rec_listed(recs0, c));
                    }
                }
            }
            assert(forall|c2: u64|
                c2 != c ==> #[trigger] rec_listed(recs2, c2) == rec_listed(recs0, c2));
            assert(forall|c2: u64|
                c2 != c && rec_listed(recs0, c2) ==> #[trigger] rec_of(recs2, c2) == rec_of(
                    recs0,
                    c2,
                ));
            if rec_listed(recs0, c) {
                lemma_rec_unique(s0, ei, c, ri as int);
                assert(recs2 == recs0);
                assert(s0.wf_slot(ei, ri as int)) by { lemma_wf_slot(s0, ei, ri as int) }
            } else {
                assert(recs2[ri as int].info.active().len() == 0);
                assert(recs2[ri as int].info.registered().len() == 0);
            }
        }
        // category closure: attach the category attribute first if absent
        if !contains_id(&self.entities[e].present, c) {
            self.entities[e].present.push(c);
            let guard = on_add_superstate(&self.entities[e].records[ri].info);
            if guard {
                self.queue.push(Cmd::DetachCategoryIfInactive { entity: e, category: c });
            }
        }
        let ghost present1 = self.entities@[ei].present@;
        let ghost q1 = self.queue@;
        proof {
            let present0 = s0.entities@[ei].present@;
            assert(present1.contains(c));
            assert(forall|a2: u64|
                #[trigger] present1.contains(a2) == (present0.contains(a2) || a2 == c));
            assert(present1.no_duplicates());
            assert(forall|x: Cmd| #[trigger] s0.queue@.contains(x) ==> q1.contains(x));
            assert(self.entities@[ei].records@ == recs2);
            assert(self.q_wf(q1)) by {
                assert forall|k: int| 0 <= k < q1.len() implies match #[trigger] q1[k] {
                    Cmd::Detach { entity, .. } => entity < self.entities@.len(),
                    Cmd::DetachCategoryIfInactive { entity, .. } => entity < self.entities@.len(),
                } by {
                    if k < s0.queue@.len() {
                        assert(s0.q_wf(s0.queue@));
                        assert(q1[k] == s0.queue@[k]);
                    }
                }
            }
            // wherever the category sits attached with nothing active, some
            // removal of it is pending
            assert((recs2[ri as int].info.active().len() == 0) ==> queued_guard_in(q1, ei, c)) by {
                if recs2[ri as int].info.active().len() == 0 {
                    if present0.contains(c) {
                        assert(rec_listed(recs0, c)) by {
                            if !rec_listed(recs0, c) {
                                assert(s0.inv_nocat(ei, ci as int));
                            }
                        }
                        assert(s0.inv_slot(s0.queue@, ei, ri as int));
                        assert(queued_guard_in(s0.queue@, ei, c));
                    } else {
                        assert(q1[q1.len() - 1] == (Cmd::DetachCategoryIfInactive {
                            entity: e,
                            category: c,
                        }));
                    }
                }
            }
        }
        // the state attribute itself, then its attach hook
        self.entities[e].present.push(a);
        proof {
            assert(!recs2[ri as int].info.active().contains(a)) by {
                if rec_listed(recs0, c) {
                    assert(s0.inv_slot(s0.queue@, ei, ri as int));
                }
            }
            assert(recs2[ri as int].info.registered() == s0.cats@[ci as int].states@ || recs2[ri as int].info.registered().len() == 0) by {
                if rec_listed(recs0, c) {
                    assert(s0.wf_slot(ei, ri as int));
                }
            }
        }
        let evict = on_add_hook_state(
            &mut self.entities[e].records[ri].info,
            &self.cats[ci].states,
            a,
        );
        let ghost acts_pre = recs2[ri as int].info.active();
        let ghost recs3 = self.entities@[ei].records@;
        proof {
            assert(recs3 =~= recs2.update(
                ri as int,
                RecordSlot { category: c, info: recs3[ri as int].info },
            ));
            lemma_rec_update_frame(recs2, ri as int, recs3[ri as int].info);
            assert(recs3[ri as int].info.active() == acts_pre.push(a));
            assert(recs3[ri as int].info.registered() == s0.cats@[ci as int].states@);
            assert(evict@ == acts_pre);
        }
        let mut k: usize = 0;
        let ghost sa = *self;
        while k < evict.len()
            invariant
                k <= evict@.len(),
                e < sa.entities@.len(),
                self.entities == sa.entities,
                self.cats == sa.cats,
                self.bound == sa.bound,
                forall|x: Cmd| #[trigger] sa.queue@.contains(x) ==> self.queue@.contains(x),
                forall|j: int|
                    0 <= j < k ==> queued_detach_in(self.queue@, e as int, #[trigger] evict@[j]),
                self.q_wf(self.queue@),
                self.queue@.len() == sa.queue@.len() + k,
                forall|j: int| 0 <= j < sa.queue@.len() ==> self.queue@[j] == sa.queue@[j],
                forall|j: int|
                    sa.queue@.len() <= j < self.queue@.len() ==> #[trigger] self.queue@[j] == (
                    Cmd::Detach { entity: e, attr: evict@[j - sa.queue@.len()] }),
            decreases evict@.len() - k,
        {
            let ghost qb = self.queue@;
            self.queue.push(Cmd::Detach { entity: e, attr: evict[k] });
            proof {
                let qn = self.queue@;
                let cmdv = Cmd::Detach { entity: e, attr: evict@[k as int] };
                assert(qn == qb.push(cmdv));
                assert forall|x: Cmd| #[trigger] qb.contains(x) implies qn.contains(x) by {
                    vstd::seq_lib::lemma_seq_contains_after_push(qb, cmdv, x);
                }
                assert(qn[qn.len() - 1] == cmdv);
                assert(queued_detach_in(qn, e as int, evict@[k as int]));
            }
            k = k + 1;
        }
        proof {
            let s2 = *self;
            let q0 = s0.queue@;
            let q2 = s2.queue@;
            let present0 = s0.entities@[ei].present@;
            let present2 = s2.entities@[ei].present@;
            assert(s2.entities@[ei].records@ == recs3);
            assert(present2 == present1.push(a));
            assert(forall|x: Cmd| #[trigger] q1.contains(x) ==> q2.contains(x));
            assert(forall|x: Cmd| #[trigger] q0.contains(x) ==> q2.contains(x));
            assert(forall|j: int|
                0 <= j < acts_pre.len() ==> queued_detach_in(q2, ei, #[trigger] acts_pre[j]));
            lemma_frame_untouched(s0, s2, q0, q2, ei);
            let actsn = recs3[ri as int].info.active();
            assert(actsn == acts_pre.push(a));
            assert(s2.wf_entity(ei)) by {
                assert(present2.no_duplicates());
                assert forall|r: int| 0 <= r < recs3.len() implies s2.wf_slot(ei, r) by {
                    if r == ri as int {
                        assert(s2.is_category(c));
                        assert(recs3[r].info.registered() == s2.declared(c));
                        assert(recs3[r].info.wf());
                        assert forall|x: u64|
                            #[trigger] recs3[r].info.active().contains(x) implies s2.declared(
                            c,
                        ).contains(x) by {
                            if x != a {
                                assert(acts_pre.contains(x));
                                if rec_listed(recs0, c) {
                                    assert(s0.wf_slot(ei, ri as int));
                                }
                            }
                        }
                    } else {
                        lemma_wf_slot(s0, ei, r);
                        assert(recs3[r] == recs0[r]);
                        assert(s2.declared(recs0[r].category) == s0.declared(recs0[r].category));
                    }
                }
            }
            assert forall|r: int| 0 <= r < recs3.len() implies s2.inv_slot(q2, ei, r) by {
                let slot = recs3[r];
                let c2 = slot.category;
                let acts2 = slot.info.active();
                if r == ri as int {
                    assert(acts2 == actsn);
                    assert(present2.contains(c));
                    assert(actsn.len() > 0);
                    assert forall|i: int, j: int|
                        0 <= i < actsn.len() && 0 <= j < actsn.len() && i != j implies (
                    queued_detach_in(q2, ei, #[trigger] actsn[i]) || queued_detach_in(
                        q2,
                        ei,
                        #[trigger] actsn[j],
                    )) by {
                        if i < acts_pre.len() {
                            assert(actsn[i] == acts_pre[i]);
                            assert(queued_detach_in(q2, ei, acts_pre[i]));
                        } else {
                            assert(j < acts_pre.len());
                            assert(actsn[j] == acts_pre[j]);
                            assert(queued_detach_in(q2, ei, acts_pre[j]));
                        }
                    }
                    assert forall|s: u64|
                        #[trigger] present2.contains(s) && s2.declared(c2).contains(s)
                            && !acts2.contains(s) implies queued_detach_in(q2, ei, s) by {
                        assert(actsn.contains(a));
                        assert(s != a);
                        assert(s != c);
                        assert(present0.contains(s));
                        if rec_listed(recs0, c) {
                            assert(s0.inv_slot(q0, ei, ri as int));
                            if acts_pre.contains(s) {
                                assert(actsn.contains(s));
                            }
                            assert(queued_detach_in(q0, ei, s));
                        } else {
                            assert(s0.inv_nocat(ei, ci as int));
                            assert(s0.cats@[ci as int].states@.contains(s));
                            assert(false);
                        }
                    }
                    assert forall|s: u64| #[trigger] acts2.contains(s) implies present2.contains(
                        s,
                    ) by {
                        if s != a {
                            assert(acts_pre.contains(s));
                            if rec_listed(recs0, c) {
                                assert(s0.inv_slot(q0, ei, ri as int));
                                assert(present0.contains(s));
                            }
                        }
                    }
                } else {
                    assert(slot == recs0[r]);
                    assert(s0.inv_slot(q0, ei, r));
                    lemma_wf_slot(s0, ei, r);
                    assert(c2 != c);
                    assert(a != c2) by {
                        let cj = cat_index(s0.cats@, c2);
                        assert(cat_listed(s0.cats@, c2));
                        assert(0 <= cj < s0.cats@.len() && s0.cats@[cj].category == c2);
                        assert(cj != ci as int);
                        if a == c2 {
                            assert(!s0.cats@[ci as int].states@.contains(s0.cats@[cj].category));
                        }
                    }
                    assert((present2.contains(c2) && acts2.len() == 0) ==> queued_guard_in(
                        q2,
                        ei,
                        c2,
                    )) by {
                        if present2.contains(c2) && acts2.len() == 0 {
                            assert(present0.contains(c2));
                            assert(queued_guard_in(q0, ei, c2));
                        }
                    }
                    assert forall|s: u64|
                        #[trigger] present2.contains(s) && s2.declared(c2).contains(s)
                            && !acts2.contains(s) implies queued_detach_in(q2, ei, s) by {
                        assert(s != c) by {
                            if s == c {
                                let cj = cat_index(s0.cats@, c2);
                                assert(cat_listed(s0.cats@, c2));
                                assert(0 <= cj < s0.cats@.len() && s0.cats@[cj].category == c2);
                                assert(cj != ci as int);
                                assert(!s0.cats@[cj].states@.contains(
                                    s0.cats@[ci as int].category,
                                ));
                            }
                        }
                        assert(s != a) by {
                            if s == a {
                                let cj = cat_index(s0.cats@, c2);
                                assert(cat_listed(s0.cats@, c2));
                                assert(0 <= cj < s0.cats@.len() && s0.cats@[cj].category == c2);
                                assert(cj != ci as int);
                                assert(s0.cats@[ci as int].states@.disjoint(
                                    s0.cats@[cj].states@,
                                ));
                                let ka = choose|kk: int|
                                    0 <= kk < s0.cats@[ci as int].states@.len()
                                        && s0.cats@[ci as int].states@[kk] == a;
                                let kb = choose|kk: int|
                                    0 <= kk < s0.cats@[cj].states@.len() && s0.cats@[cj].states@[kk]
                                        == a;
                                assert(s0.cats@[ci as int].states@[ka] != s0.cats@[cj].states@[kb]);
                            }
                        }
                        assert(present0.contains(s));
                        assert(queued_detach_in(q0, ei, s));
                    }
                }
            }
            assert forall|ci2: int| 0 <= ci2 < s2.cats@.len() implies s2.inv_nocat(ei, ci2) by {
                let c2 = s2.cats@[ci2].category;
                if c2 == c {
                    assert(rec_listed(recs3, c));
                } else {
                    assert(ci2 != ci as int);
                    assert(s0.inv_nocat(ei, ci2));
                    if !rec_listed(recs3, c2) {
                        assert(!rec_listed(recs0, c2));
                        assert(!present0.contains(c2));
                        assert forall|s: u64|
                            #[trigger] s2.cats@[ci2].states@.contains(s) implies !present2.contains(
                            s,
                        ) by {
                            assert(!present0.contains(s));
                            assert(s != c) by {
                                if s == c {
                                    assert(!s0.cats@[ci2].states@.contains(
                                        s0.cats@[ci as int].category,
                                    ));
                                }
                            }
                            assert(s != a) by {
                                if s == a {
                                    assert(s0.cats@[ci as int].states@.disjoint(
                                        s0.cats@[ci2].states@,
                                    ));
                                    let ka = choose|kk: int|
                                        0 <= kk < s0.cats@[ci as int].states@.len()
                                            && s0.cats@[ci as int].states@[kk] == a;
                                    let kb = choose|kk: int|
                                        0 <= kk < s0.cats@[ci2].states@.len()
                                            && s0.cats@[ci2].states@[kk] == a;
                                    assert(s0.cats@[ci as int].states@[ka]
                                        != s0.cats@[ci2].states@[kb]);
                                }
                            }
                        }
                    }
                }
            }
            assert(s2.inv());
            // the caller-facing shape
            lemma_rec_unique(s2, ei, c, ri as int);
            assert(s2.record_of(ei, c) == recs3[ri as int].info);
            assert(s2.active(ei, c) == s0.active(ei, c).push(a)) by {
                if rec_listed(recs0, c) {
                    lemma_rec_unique(s0, ei, c, ri as int);
                } else {
                    assert(acts_pre =~= Seq::<u64>::empty());
                    assert(s0.active(ei, c) =~= acts_pre);
                }
            }
            assert forall|c3: u64| c3 != c implies s2.active(ei, c3) == s0.active(ei, c3) by {
                assert(rec_listed(recs3, c3) == rec_listed(recs2, c3));
                if rec_listed(recs0, c3) {
                    assert(rec_of(recs3, c3) == rec_of(recs2, c3));
                    assert(rec_of(recs2, c3) == rec_of(recs0, c3));
                }
            }
            assert forall|c2: u64| #[trigger] s0.has_record(ei, c2) implies s2.has_record(
                ei,
                c2,
            ) by {
                assert(rec_listed(recs3, c2) == rec_listed(recs2, c2));
            }
            assert(sa.queue@ == q1);
            assert(q1 == q0 || q1 == q0.push(
                Cmd::DetachCategoryIfInactive { entity: e, category: c },
            ));
            assert(s0.active(ei, c) == acts_pre) by {
                if rec_listed(recs0, c) {
                    lemma_rec_unique(s0, ei, c, ri as int);
                } else {
                    assert(acts_pre =~= Seq::<u64>::empty());
                    assert(s0.active(ei, c) =~= acts_pre);
                }
            }
            // what was newly deferred
            assert forall|e3: int, a3: u64|
                0 <= e3 < s0.entities@.len() && queued_detach_in(q2, e3, a3) && !queued_detach_in(
                q0,
                e3,
                a3,
            ) implies e3 == ei && s0.active(ei, c).contains(a3) by {
                let cmdw = Cmd::Detach { entity: e3 as usize, attr: a3 };
                assert(q2.contains(cmdw));
                let kk = choose|kk: int| 0 <= kk < q2.len() && q2[kk] == cmdw;
                if kk < q1.len() {
                    assert(q2[kk] == q1[kk]);
                    if kk < q0.len() {
                        assert(q1[kk] == q0[kk]);
                        assert(q0.contains(cmdw));
                    } else {
                        assert(q1 == q0.push(
                            Cmd::DetachCategoryIfInactive { entity: e, category: c },
                        ));
                        assert(q1[kk] == (Cmd::DetachCategoryIfInactive {
                            entity: e,
                            category: c,
                        }));
                    }
                } else {
                    assert(q2[kk] == (Cmd::Detach { entity: e, attr: evict@[kk - q1.len()] }));
                    assert(e3 as usize == e && a3 == evict@[kk - q1.len()]);
                    assert(acts_pre[kk - q1.len()] == a3);
                    assert(acts_pre.contains(a3));
                }
            }
            assert forall|e3: int, c3: u64|
                0 <= e3 < s0.entities@.len() && queued_cond_in(q2, e3, c3) && !queued_cond_in(
                q0,
                e3,
                c3,
            ) implies e3 == ei && c3 == c by {
                let cmdw = Cmd::DetachCategoryIfInactive { entity: e3 as usize, category: c3 };
                assert(q2.contains(cmdw));
                let kk = choose|kk: int| 0 <= kk < q2.len() && q2[kk] == cmdw;
                if kk < q1.len() {
                    assert(q2[kk] == q1[kk]);
                    if kk < q0.len() {
                        assert(q1[kk] == q0[kk]);
                        assert(q0.contains(cmdw));
                    } else {
                        assert(q1[kk] == (Cmd::DetachCategoryIfInactive {
                            entity: e,
                            category: c,
                        }));
                        assert(e3 as usize == e && c3 == c);
                    }
                } else {
                    assert(q2[kk] == (Cmd::Detach { entity: e, attr: evict@[kk - q1.len()] }));
                }
            }
        }
    }
    /// Attaches attribute `a` to entity `e`: a no-op when already attached;
    /// otherwise the dependency closure runs first (record, then category
    /// attribute, for a state or category identity) and the matching attach
    /// hook fires, deferring its structural removals to the command queue.
    pub fn attach(&mut self, e: usize, a: u64)
        requires
            old(self).inv(),
            e < old(self).entities@.len(),
        ensures
            final(self).inv(),
            final(self).cats == old(self).cats,
            final(self).bound == old(self).bound,
            final(self).entities@.len() == old(self).entities@.len(),
            forall|e2: int|
                0 <= e2 < old(self).entities@.len() && e2 != e as int ==> final(self).entities@[e2]
                    == old(self).entities@[e2],
            forall|x: Cmd|
                #[trigger] old(self).queue@.contains(x) ==> final(self).queue@.contains(x),
            forall|c2: u64|
                #[trigger] old(self).has_record(e as int, c2) ==> final(self).has_record(
                    e as int,
                    c2,
                ),
            final(self).attached(e as int, a),
            old(self).attached(e as int, a) ==> *final(self) == *old(self),
            forall|c2: u64|
                !old(self).attached(e as int, a) && #[trigger] old(self).is_state_of(a, c2) ==> {
                    &&& final(self).active(e as int, c2) == old(self).active(e as int, c2).push(a)
                    &&& final(self).attached(e as int, c2)
                    &&& final(self).has_record(e as int, c2)
                    &&& final(self).record_of(e as int, c2).registered() == old(self).declared(c2)
                    &&& (forall|a2: u64|
                        a2 != a && a2 != c2 ==> final(self).attached(e as int, a2) == old(
                            self,
                        ).attached(e as int, a2))
                    &&& (forall|c3: u64|
                        c3 != c2 ==> final(self).active(e as int, c3) == old(self).active(
                            e as int,
                            c3,
                        ))
                    &&& ((!queued_guard_in(old(self).queue@, e as int, a) && !queued_detach_in(
                        old(self).queue@,
                        e as int,
                        c2,
                    )) ==> final(self).survives(e as int, c2, a))
                },
            (!old(self).attached(e as int, a) && old(self).is_category(a)) ==> {
                &&& final(self).has_record(e as int, a)
                &&& (forall|a2: u64|
                    a2 != a ==> final(self).attached(e as int, a2) == old(self).attached(
                        e as int,
                        a2,
                    ))
                &&& (forall|c3: u64|
                    final(self).active(e as int, c3) == old(self).active(e as int, c3))
            },
            (!old(self).attached(e as int, a) && !old(self).hook_busy(a)) ==> {
                &&& (forall|a2: u64|
                    a2 != a ==> final(self).attached(e as int, a2) == old(self).attached(
                        e as int,
                        a2,
                    ))
                &&& final(self).entities@[e as int].records == old(self).entities@[e as int].records
                &&& final(self).queue == old(self).queue
            },
            // what was newly deferred: evictions of states tracked before,
            // and possibly the guard of the attribute's own category
            forall|e3: int, a3: u64|
                0 <= e3 < old(self).entities@.len() && queued_detach_in(
                    final(self).queue@,
                    e3,
                    a3,
                ) && !queued_detach_in(old(self).queue@, e3, a3) ==> e3 == e as int && (exists|
                    c2: u64,
                |
                    #[trigger] old(self).is_state_of(a, c2) && old(self).active(
                        e as int,
                        c2,
                    ).contains(a3)),
            forall|e3: int, c3: u64|
                0 <= e3 < old(self).entities@.len() && queued_cond_in(
                    final(self).queue@,
                    e3,
                    c3,
                ) && !queued_cond_in(old(self).queue@, e3, c3) ==> e3 == e as int && (old(
                    self,
                ).is_category(a) ==> c3 == a) && (!old(self).is_category(a) ==> old(
                    self,
                ).is_state_of(a, c3)),
    {
        if contains_id(&self.entities[e].present, a) {
            return ;
        }
        let ghost s0 = *old(self);
        match lookup_role(&self.cats, a) {
            RoleHit::StateOf(ci) => {
                proof {
                    lemma_state_unique(s0, a, ci as int);
                    // a state identity is no category identity
                    assert(!s0.is_category(a)) by {
                        if s0.is_category(a) {
                            let cj = cat_index(s0.cats@, a);
                            assert(cat_listed(s0.cats@, a));
                            assert(0 <= cj < s0.cats@.len() && s0.cats@[cj].category == a);
                            if cj == ci as int {
                                assert(!s0.cats@[cj].states@.contains(s0.cats@[cj].category));
                            } else {
                                assert(!s0.cats@[ci as int].states@.contains(
                                    s0.cats@[cj].category,
                                ));
                            }
                        }
                    }
                    assert(busy_in(s0.cats@, a));
                }
                self.attach_state(e, ci, a);
                proof {
                    let c = s0.cats@[ci as int].category;
                    assert forall|c2: u64| #[trigger] s0.is_state_of(a, c2) implies c2 == c by {}
                    let sf = *self;
                    let ei = e as int;
                    if !queued_guard_in(s0.queue@, ei, a) && !queued_detach_in(s0.queue@, ei, c) {
                        // the freshly attached state is out of reach of
                        // everything pending, so it outlives the flush
                        assert(sf.cats@ == s0.cats@);
                        assert(sf.is_state_of(a, c));
                        assert(!s0.active(ei, c).contains(a)) by {
                            if s0.active(ei, c).contains(a) {
                                let recs = s0.entities@[ei].records@;
                                assert(rec_listed(recs, c));
                                let r = rec_index(recs, c);
                                assert(0 <= r < recs.len() && recs[r].category == c);
                                assert(s0.wf_entity(ei));
                                lemma_rec_unique(s0, ei, c, r);
                                assert(s0.inv_slot(s0.queue@, ei, r));
                                assert(s0.attached(ei, a));
                            }
                        }
                        assert(sf.active(ei, c).contains(a)) by {
                            assert(sf.active(ei, c) == s0.active(ei, c).push(a));
                            assert(sf.active(ei, c)[sf.active(ei, c).len() - 1] == a);
                        }
                        assert(!queued_detach_in(sf.queue@, ei, a)) by {
                            if queued_detach_in(sf.queue@, ei, a) {
                                assert(s0.active(ei, c).contains(a));
                            }
                        }
                        assert(!queued_cond_in(sf.queue@, ei, a)) by {
                            if queued_cond_in(sf.queue@, ei, a) {
                                assert(a == c);
                                assert(s0.declared(c).contains(a));
                                assert(!s0.cats@[ci as int].states@.contains(
                                    s0.cats@[ci as int].category,
                                ));
                            }
                        }
                        assert(!queued_detach_in(sf.queue@, ei, c)) by {
                            if queued_detach_in(sf.queue@, ei, c) {
                                assert(s0.active(ei, c).contains(c));
                                let recs = s0.entities@[ei].records@;
                                assert(rec_listed(recs, c));
                                let r = rec_index(recs, c);
                                assert(0 <= r < recs.len() && recs[r].category == c);
                                assert(s0.wf_entity(ei));
                                lemma_rec_unique(s0, ei, c, r);
                                lemma_wf_slot(s0, ei, r);
                                assert(s0.declared(c).contains(c));
                                assert(!s0.cats@[ci as int].states@.contains(
                                    s0.cats@[ci as int].category,
                                ));
                            }
                        }
                        assert(sf.survives(ei, c, a));
                    }
                }
            },
            RoleHit::CategoryAt(ci) => {
                proof {
                    lemma_cat_unique(s0, a, ci as int);
                    assert(busy_in(s0.cats@, a));
                    // a category identity is no state identity
                    assert forall|c2: u64| !(#[trigger] s0.is_state_of(a, c2)) by {
                        if s0.is_state_of(a, c2) {
                            let cj = cat_index(s0.cats@, c2);
                            assert(cat_listed(s0.cats@, c2));
                            assert(0 <= cj < s0.cats@.len() && s0.cats@[cj].category == c2);
                            if cj == ci as int {
                                assert(!s0.cats@[cj].states@.contains(s0.cats@[cj].category));
                            } else {
                                assert(!s0.cats@[cj].states@.contains(
                                    s0.cats@[ci as int].category,
                                ));
                            }
                        }
                    }
                }
                self.attach_category(e, ci);
            },
            RoleHit::Unhooked => {
                proof {
                    assert(!s0.is_category(a)) by {
                        if s0.is_category(a) {
                            let cj = cat_index(s0.cats@, a);
                            assert(cat_listed(s0.cats@, a));
                            assert(0 <= cj < s0.cats@.len() && s0.cats@[cj].category == a);
                            assert(busy_in(s0.cats@, a));
                        }
                    }
                    assert forall|c2: u64| !(#[trigger] s0.is_state_of(a, c2)) by {
                        if s0.is_state_of(a, c2) {
                            let cj = cat_index(s0.cats@, c2);
                            assert(cat_listed(s0.cats@, c2));
                            assert(0 <= cj < s0.cats@.len() && s0.cats@[cj].category == c2);
                            assert(s0.cats@[cj].states@.contains(a));
                            assert(busy_in(s0.cats@, a));
                        }
                    }
                }
                self.attach_plain(e, a);
            },
        }
    }
    /// Detaches an attribute that holds no hook pair.
    fn detach_plain(&mut self, e: usize, a: u64)
        requires
            e < old(self).entities@.len(),
            old(self).inv_q(old(self).queue@.push(Cmd::Detach { entity: e, attr: a })),
            !old(self).hook_busy(a),
            old(self).attached(e as int, a),
        ensures
            final(self).inv(),
            final(self).cats == old(self).cats,
            final(self).bound == old(self).bound,
            final(self).queue == old(self).queue,
            final(self).entities@.len() == old(self).entities@.len(),
            forall|e2: int|
                0 <= e2 < old(self).entities@.len() && e2 != e as int ==> final(self).entities@[e2]
                    == old(self).entities@[e2],
            final(self).entities@[e as int].records == old(self).entities@[e as int].records,
            !final(self).attached(e as int, a),
            forall|a2: u64|
                a2 != a ==> final(self).attached(e as int, a2) == old(self).attached(e as int, a2),
            sum_present(final(self).entities@) == sum_present(old(self).entities@) - 1,
    {
        broadcast use vstd::seq_lib::lemma_seq_contains_after_push;

        let ghost s0 = *old(self);
        let ghost ei = e as int;
        let ghost cmdv = Cmd::Detach { entity: e, attr: a };
        let ghost qx = s0.queue@.push(cmdv);
        proof {
            assert(s0.wf_entity(ei));
        }
        remove_id(&mut self.entities[e].present, a);
        proof {
            let s2 = *self;
            let q0 = s0.queue@;
            let ent0 = s0.entities@[ei];
            let ent2 = s2.entities@[ei];
            assert(s0.entities.len() == s0.entities@.len());
            assert(ent2.records == ent0.records);
            assert(s2.entities@ =~= s0.entities@.update(ei, ent2));
            lemma_sum_present_update(s0.entities@, ei, ent2);
            lemma_frame_untouched(s0, s2, qx, q0, ei);
            assert(s2.q_wf(q0)) by {
                assert(forall|k: int| 0 <= k < q0.len() ==> #[trigger] q0[k] == qx[k]);
                assert(s0.q_wf(qx));
            }
            // nothing hooked mentions a
            assert forall|i: int| 0 <= i < s0.cats@.len() implies (#[trigger] s0.cats@[i]).category
                != a && !s0.cats@[i].states@.contains(a) by {
                if s0.cats@[i].category == a || s0.cats@[i].states@.contains(a) {
                    assert(busy_in(s0.cats@, a));
                }
            }
            assert(s2.wf_entity(ei)) by {
                assert(s0.wf_entity(ei));
                assert forall|r: int| 0 <= r < ent2.records@.len() implies s2.wf_slot(ei, r) by {
                    lemma_wf_slot(s0, ei, r);
                }
            }
            assert forall|r: int| 0 <= r < ent2.records@.len() implies s2.inv_slot(q0, ei, r) by {
                assert(s0.inv_slot(qx, ei, r));
                assert(s0.wf_entity(ei));
                lemma_wf_slot(s0, ei, r);
                let slot = ent2.records@[r];
                let c = slot.category;
                let acts = slot.info.active();
                assert(c != a) by {
                    let i0 = cat_index(s0.cats@, c);
                    assert(cat_listed(s0.cats@, c));
                    assert(0 <= i0 < s0.cats@.len() && s0.cats@[i0].category == c);
                }
                assert(ent2.present@.contains(c) == ent0.present@.contains(c));
                if ent2.present@.contains(c) && acts.len() == 0 {
                    assert(queued_guard_in(qx, ei, c));
                    if qx.contains(Cmd::Detach { entity: e, attr: c }) {
                        assert(q0.contains(Cmd::Detach { entity: e, attr: c }));
                    } else {
                        assert(q0.contains(
                            Cmd::DetachCategoryIfInactive { entity: e, category: c },
                        ));
                    }
                    assert(queued_guard_in(q0, ei, c));
                }
                assert forall|i: int, j: int|
                    0 <= i < acts.len() && 0 <= j < acts.len() && i != j implies (queued_detach_in(
                    q0,
                    ei,
                    #[trigger] acts[i],
                ) || queued_detach_in(q0, ei, #[trigger] acts[j])) by {
                    assert(acts.contains(acts[i]) && acts.contains(acts[j]));
                    assert(s2.declared(c).contains(acts[i]));
                    assert(acts[i] != a && acts[j] != a) by {
                        let i0 = cat_index(s0.cats@, c);
                        assert(cat_listed(s0.cats@, c));
                        assert(0 <= i0 < s0.cats@.len() && s0.cats@[i0].category == c);
                    }
                    if queued_detach_in(qx, ei, acts[i]) {
                        assert(q0.contains(Cmd::Detach { entity: e, attr: acts[i] }));
                    } else {
                        assert(queued_detach_in(qx, ei, acts[j]));
                        assert(q0.contains(Cmd::Detach { entity: e, attr: acts[j] }));
                    }
                }
                assert forall|sv: u64|
                    #[trigger] ent2.present@.contains(sv) && s2.declared(c).contains(sv)
                        && !acts.contains(sv) implies queued_detach_in(q0, ei, sv) by {
                    assert(sv != a) by {
                        let i0 = cat_index(s0.cats@, c);
                        assert(cat_listed(s0.cats@, c));
                        assert(0 <= i0 < s0.cats@.len() && s0.cats@[i0].category == c);
                    }
                    assert(ent0.present@.contains(sv));
                    assert(queued_detach_in(qx, ei, sv));
                    assert(q0.contains(Cmd::Detach { entity: e, attr: sv }));
                }
                assert forall|sv: u64| #[trigger] acts.contains(sv) implies ent2.present@.contains(
                    sv,
                ) by {
                    assert(ent0.present@.contains(sv));
                    assert(sv != a) by {
                        let i0 = cat_index(s0.cats@, c);
                        assert(cat_listed(s0.cats@, c));
                        assert(0 <= i0 < s0.cats@.len() && s0.cats@[i0].category == c);
                    }
                }
            }
            assert forall|ci: int| 0 <= ci < s2.cats@.len() implies s2.inv_nocat(ei, ci) by {
                assert(s0.inv_nocat(ei, ci));
            }
            assert(s2.inv());
        }
    }

    /// Detaches a state attribute of registry entry `ci` and runs its detach
    /// hook: the state stops being tracked, and when nothing is left tracked
    /// the category attribute's removal is deferred to the queue.
    fn detach_state(&mut self, e: usize, ci: usize, a: u64)
        requires
            e < old(self).entities@.len(),
            ci < old(self).cats@.len(),
            old(self).cats@[ci as int].states@.contains(a),
            old(self).inv_q(old(self).queue@.push(Cmd::Detach { entity: e, attr: a })),
            old(self).attached(e as int, a),
        ensures
            final(self).inv(),
            final(self).cats == old(self).cats,
            final(self).bound == old(self).bound,
            final(self).entities@.len() == old(self).entities@.len(),
            forall|e2: int|
                0 <= e2 < old(self).entities@.len() && e2 != e as int ==> final(self).entities@[e2]
                    == old(self).entities@[e2],
            forall|x: Cmd|
                #[trigger] old(self).queue@.contains(x) ==> final(self).queue@.contains(x),
            forall|c2: u64|
                #[trigger] old(self).has_record(e as int, c2) ==> final(self).has_record(
                    e as int,
                    c2,
                ),
            !final(self).attached(e as int, a),
            forall|a2: u64|
                a2 != a ==> final(self).attached(e as int, a2) == old(self).attached(e as int, a2),
            sum_present(final(self).entities@) == sum_present(old(self).entities@) - 1,
            final(self).queue@.len() <= old(self).queue@.len() + 1,
            ({
                let c = old(self).cats@[ci as int].category;
                &&& (forall|x: u64|
                    final(self).active(e as int, c).contains(x) <==> (old(self).active(
                        e as int,
                        c,
                    ).contains(x) && x != a))
                &&& (forall|c3: u64|
                    c3 != c ==> final(self).active(e as int, c3) == old(self).active(e as int, c3))
                &&& (final(self).active(e as int, c).len() == 0 ==> queued_guard_in(
                    final(self).queue@,
                    e as int,
                    c,
                ))
            }),
            // the only removal this can defer is the category's own, and
            // only once nothing is left tracked
            forall|e3: int, a3: u64|
                0 <= e3 < old(self).entities@.len() && queued_detach_in(
                    final(self).queue@,
                    e3,
                    a3,
                ) && !queued_detach_in(old(self).queue@, e3, a3) ==> e3 == e as int && a3 == old(
                    self,
                ).cats@[ci as int].category && final(self).active(
                    e as int,
                    old(self).cats@[ci as int].category,
                ).len() == 0,
            forall|e3: int, c3: u64|
                queued_cond_in(final(self).queue@, e3, c3) ==> queued_cond_in(
                    old(self).queue@,
                    e3,
                    c3,
                ),
    {
        broadcast use vstd::seq_lib::lemma_seq_contains_after_push;

        let ghost s0 = *old(self);
        let ghost ei = e as int;
        let ghost cmdv = Cmd::Detach { entity: e, attr: a };
        let ghost qx = s0.queue@.push(cmdv);
        let ghost recs0 = s0.entities@[ei].records@;
        let c = self.cats[ci].category;
        proof {
            assert(s0.entities.len() == s0.entities@.len());
            assert(s0.wf_entity(ei));
            lemma_cat_unique(s0, c, ci as int);
            assert(a != c) by {
                assert(!s0.cats@[ci as int].states@.contains(s0.cats@[ci as int].category));
            }
            // the record exists: a state attribute is attached
            assert(rec_listed(recs0, c)) by {
                if !rec_listed(recs0, c) {
                    assert(s0.inv_nocat(ei, ci as int));
                    assert(s0.cats@[ci as int].states@.contains(a));
                }
            }
        }
        let ri: usize = match find_record(&self.entities[e].records, c) {
            Some(ri) => ri,
            None => {
                proof {
                    assert(false);
                }
                0
            },
        };
        proof {
            lemma_rec_unique(s0, ei, c, ri as int);
            lemma_wf_slot(s0, ei, ri as int);
            assert(s0.inv_slot(qx, ei, ri as int));
        }
        remove_id(&mut self.entities[e].present, a);
        let drop_cat = on_remove_hook_state(&mut self.entities[e].records[ri].info, a);
        if drop_cat {
            self.queue.push(Cmd::Detach { entity: e, attr: c });
        }
        proof {
            let s2 = *self;
            let q0 = s0.queue@;
            let q2 = s2.queue@;
            let ent0 = s0.entities@[ei];
            let ent2 = s2.entities@[ei];
            let recs2 = ent2.records@;
            let acts0 = recs0[ri as int].info.active();
            let acts2 = recs2[ri as int].info.active();
            assert(recs2 =~= recs0.update(
                ri as int,
                RecordSlot { category: c, info: recs2[ri as int].info },
            ));
            lemma_rec_update_frame(recs0, ri as int, recs2[ri as int].info);
            assert(ent2.present@.no_duplicates());
            assert(forall|y: u64|
                #[trigger] ent2.present@.contains(y) <==> (ent0.present@.contains(y) && y != a));
            assert(forall|y: u64|
                #[trigger] acts2.contains(y) <==> (acts0.contains(y) && y != a));
            assert(s2.entities@ =~= s0.entities@.update(ei, ent2));
            lemma_sum_present_update(s0.entities@, ei, ent2);
            assert(forall|x: Cmd| #[trigger] q0.contains(x) ==> q2.contains(x));
            lemma_frame_untouched(s0, s2, qx, q2, ei);
            assert(s2.q_wf(q2)) by {
                assert forall|k: int| 0 <= k < q2.len() implies match #[trigger] q2[k] {
                    Cmd::Detach { entity, .. } => entity < s2.entities@.len(),
                    Cmd::DetachCategoryIfInactive { entity, .. } => entity < s2.entities@.len(),
                } by {
                    if k < q0.len() {
                        assert(s0.q_wf(qx));
                        assert(q2[k] == q0[k] && q0[k] == qx[k]);
                    }
                }
            }
            // when nothing is left tracked, the category's removal is pending
            assert(acts2.len() == 0 ==> queued_guard_in(q2, ei, c)) by {
                if acts2.len() == 0 {
                    assert(drop_cat);
                    assert(q2[q2.len() - 1] == (Cmd::Detach { entity: e, attr: c }));
                    assert(q2.contains(Cmd::Detach { entity: e, attr: c }));
                }
            }
            assert(s2.wf_entity(ei)) by {
                assert forall|r: int| 0 <= r < recs2.len() implies s2.wf_slot(ei, r) by {
                    lemma_wf_slot(s0, ei, r);
                    if r == ri as int {
                        assert(recs2[r].info.registered() == recs0[r].info.registered());
                        assert forall|x: u64|
                            #[trigger] recs2[r].info.active().contains(x) implies s2.declared(
                            c,
                        ).contains(x) by {
                            assert(acts0.contains(x));
                        }
                    } else {
                        assert(recs2[r] == recs0[r]);
                    }
                }
            }
            assert forall|r: int| 0 <= r < recs2.len() implies s2.inv_slot(q2, ei, r) by {
                assert(s0.inv_slot(qx, ei, r));
                assert(s0.wf_entity(ei));
                lemma_wf_slot(s0, ei, r);
                let slot = recs2[r];
                let c2 = slot.category;
                let acts = slot.info.active();
                if r == ri as int {
                    assert(c2 == c);
                    if acts.len() > 0 {
                        assert(acts0.len() > 0);
                        assert(ent0.present@.contains(c));
                        assert(ent2.present@.contains(c));
                    }
                    if ent2.present@.contains(c) && acts.len() == 0 {
                        assert(queued_guard_in(q2, ei, c));
                    }
                    assert forall|i: int, j: int|
                        0 <= i < acts.len() && 0 <= j < acts.len() && i != j implies (
                    queued_detach_in(q2, ei, #[trigger] acts[i]) || queued_detach_in(
                        q2,
                        ei,
                        #[trigger] acts[j],
                    )) by {
                        assert(acts.contains(acts[i]) && acts.contains(acts[j]));
                        assert(acts0.contains(acts[i]) && acts0.contains(acts[j]));
                        let i0 = choose|k: int| 0 <= k < acts0.len() && acts0[k] == acts[i];
                        let j0 = choose|k: int| 0 <= k < acts0.len() && acts0[k] == acts[j];
                        assert(acts0[i0] == acts[i] && acts0[j0] == acts[j]);
                        assert(i0 != j0) by {
                            assert(acts[i] != acts[j]) by {
                                assert(slot.info.wf());
                            }
                        }
                        if queued_detach_in(qx, ei, acts0[i0]) {
                            assert(acts[i] != a);
                            assert(q0.contains(Cmd::Detach { entity: e, attr: acts[i] }));
                            assert(queued_detach_in(q2, ei, acts[i]));
                        } else {
                            assert(queued_detach_in(qx, ei, acts0[j0]));
                            assert(acts[j] != a);
                            assert(q0.contains(Cmd::Detach { entity: e, attr: acts[j] }));
                            assert(queued_detach_in(q2, ei, acts[j]));
                        }
                    }
                    assert forall|sv: u64|
                        #[trigger] ent2.present@.contains(sv) && s2.declared(c2).contains(sv)
                            && !acts.contains(sv) implies queued_detach_in(q2, ei, sv) by {
                        assert(sv != a);
                        assert(ent0.present@.contains(sv));
                        assert(!acts0.contains(sv)) by {
                            if acts0.contains(sv) {
                                assert(acts.contains(sv));
                            }
                        }
                        assert(queued_detach_in(qx, ei, sv));
                        assert(q0.contains(Cmd::Detach { entity: e, attr: sv }));
                    }
                    assert forall|sv: u64|
                        #[trigger] acts.contains(sv) implies ent2.present@.contains(sv) by {
                        assert(acts0.contains(sv));
                        assert(ent0.present@.contains(sv));
                        assert(sv != a);
                    }
                } else {
                    assert(slot == recs0[r]);
                    assert(c2 != c);
                    assert(a != c2) by {
                        let cj = cat_index(s0.cats@, c2);
                        assert(cat_listed(s0.cats@, c2));
                        assert(0 <= cj < s0.cats@.len() && s0.cats@[cj].category == c2);
                        assert(cj != ci as int);
                        if a == c2 {
                            assert(!s0.cats@[ci as int].states@.contains(s0.cats@[cj].category));
                        }
                    }
                    assert(ent2.present@.contains(c2) == ent0.present@.contains(c2));
                    if ent2.present@.contains(c2) && acts.len() == 0 {
                        assert(queued_guard_in(qx, ei, c2));
                        if qx.contains(Cmd::Detach { entity: e, attr: c2 }) {
                            assert(q0.contains(Cmd::Detach { entity: e, attr: c2 }));
                        } else {
                            assert(q0.contains(
                                Cmd::DetachCategoryIfInactive { entity: e, category: c2 },
                            ));
                        }
                        assert(queued_guard_in(q2, ei, c2));
                    }
                    assert forall|i: int, j: int|
                        0 <= i < acts.len() && 0 <= j < acts.len() && i != j implies (
                    queued_detach_in(q2, ei, #[trigger] acts[i]) || queued_detach_in(
                        q2,
                        ei,
                        #[trigger] acts[j],
                    )) by {
                        assert(acts.contains(acts[i]) && acts.contains(acts[j]));
                        assert(s0.declared(c2).contains(acts[i]) && s0.declared(c2).contains(
                            acts[j],
                        ));
                        assert(acts[i] != a && acts[j] != a) by {
                            let cj = cat_index(s0.cats@, c2);
                            assert(cat_listed(s0.cats@, c2));
                            assert(0 <= cj < s0.cats@.len() && s0.cats@[cj].category == c2);
                            assert(cj != ci as int);
                            assert(s0.cats@[ci as int].states@.disjoint(s0.cats@[cj].states@));
                            if acts[i] == a || acts[j] == a {
                                let ka = choose|kk: int|
                                    0 <= kk < s0.cats@[ci as int].states@.len()
                                        && s0.cats@[ci as int].states@[kk] == a;
                                let kb = choose|kk: int|
                                    0 <= kk < s0.cats@[cj].states@.len() && s0.cats@[cj].states@[kk]
                                        == a;
                                assert(s0.cats@[ci as int].states@[ka] != s0.cats@[cj].states@[kb]);
                            }
                        }
                        if queued_detach_in(qx, ei, acts[i]) {
                            assert(q0.contains(Cmd::Detach { entity: e, attr: acts[i] }));
                        } else {
                            assert(queued_detach_in(qx, ei, acts[j]));
                            assert(q0.contains(Cmd::Detach { entity: e, attr: acts[j] }));
                        }
                    }
                    assert forall|sv: u64|
                        #[trigger] ent2.present@.contains(sv) && s2.declared(c2).contains(sv)
                            && !acts.contains(sv) implies queued_detach_in(q2, ei, sv) by {
                        assert(sv != a) by {
                            let cj = cat_index(s0.cats@, c2);
                            assert(cat_listed(s0.cats@, c2));
                            assert(0 <= cj < s0.cats@.len() && s0.cats@[cj].category == c2);
                            assert(cj != ci as int);
                            assert(s0.cats@[ci as int].states@.disjoint(s0.cats@[cj].states@));
                            if sv == a {
                                let ka = choose|kk: int|
                                    0 <= kk < s0.cats@[ci as int].states@.len()
                                        && s0.cats@[ci as int].states@[kk] == a;
                                let kb = choose|kk: int|
                                    0 <= kk < s0.cats@[cj].states@.len() && s0.cats@[cj].states@[kk]
                                        == a;
                                assert(s0.cats@[ci as int].states@[ka] != s0.cats@[cj].states@[kb]);
                            }
                        }
                        assert(ent0.present@.contains(sv));
                        assert(queued_detach_in(qx, ei, sv));
                        assert(q0.contains(Cmd::Detach { entity: e, attr: sv }));
                    }
                    assert forall|sv: u64|
                        #[trigger] acts.contains(sv) implies ent2.present@.contains(sv) by {
                        assert(ent0.present@.contains(sv));
                        assert(sv != a) by {
                            let cj = cat_index(s0.cats@, c2);
                            assert(cat_listed(s0.cats@, c2));
                            assert(0 <= cj < s0.cats@.len() && s0.cats@[cj].category == c2);
                            assert(cj != ci as int);
                            assert(s2.declared(c2).contains(sv));
                            assert(s0.cats@[ci as int].states@.disjoint(s0.cats@[cj].states@));
                            if sv == a {
                                let ka = choose|kk: int|
                                    0 <= kk < s0.cats@[ci as int].states@.len()
                                        && s0.cats@[ci as int].states@[kk] == a;
                                let kb = choose|kk: int|
                                    0 <= kk < s0.cats@[cj].states@.len() && s0.cats@[cj].states@[kk]
                                        == a;
                                assert(s0.cats@[ci as int].states@[ka] != s0.cats@[cj].states@[kb]);
                            }
                        }
                    }
                }
            }
            assert forall|ci2: int| 0 <= ci2 < s2.cats@.len() implies s2.inv_nocat(ei, ci2) by {
                assert(s0.inv_nocat(ei, ci2));
                assert(forall|c3: u64| #[trigger] rec_listed(recs2, c3) == rec_listed(recs0, c3));
            }
            assert(s2.inv());
            // the caller-facing shape
            lemma_rec_unique(s2, ei, c, ri as int);
            assert(s2.active(ei, c) == acts2);
            assert(s0.active(ei, c) == acts0);
            assert forall|c3: u64| c3 != c implies s2.active(ei, c3) == s0.active(ei, c3) by {
                if rec_listed(recs0, c3) {
                    assert(rec_of(recs2, c3) == rec_of(recs0, c3));
                }
            }
            assert forall|c2: u64| #[trigger] s0.has_record(ei, c2) implies s2.has_record(
                ei,
                c2,
            ) by {}
            // what was newly deferred: at most the category's own removal
            assert forall|e3: int, a3: u64|
                0 <= e3 < s0.entities@.len() && queued_detach_in(q2, e3, a3) && !queued_detach_in(
                q0,
                e3,
                a3,
            ) implies e3 == ei && a3 == c && s2.active(ei, c).len() == 0 by {
                assert(q2.contains(Cmd::Detach { entity: e3 as usize, attr: a3 }));
                assert((Cmd::Detach { entity: e3 as usize, attr: a3 }) == (Cmd::Detach {
                    entity: e,
                    attr: c,
                }));
                assert(e3 as usize == e && a3 == c);
                assert(drop_cat);
            }
            assert forall|e3: int, c3: u64|
                queued_cond_in(q2, e3, c3) implies queued_cond_in(q0, e3, c3) by {
                if drop_cat {
                    assert(q2 == q0.push(Cmd::Detach { entity: e, attr: c }));
                }
            }
        }
    }

    /// Detaches a category attribute and runs its detach hook: every state
    /// of the full declared bundle has its removal deferred to the queue —
    /// not just the tracked ones, for a clean slate — and the tracked set is
    /// cleared. This is the one call that bulk-clears an entity's state.
    fn detach_category(&mut self, e: usize, ci: usize)
        requires
            e < old(self).entities@.len(),
            ci < old(self).cats@.len(),
            old(self).inv_q(
                old(self).queue@.push(
                    Cmd::Detach { entity: e, attr: old(self).cats@[ci as int].category },
                ),
            ),
            old(self).attached(e as int, old(self).cats@[ci as int].category),
        ensures
            final(self).inv(),
            final(self).cats == old(self).cats,
            final(self).bound == old(self).bound,
            final(self).entities@.len() == old(self).entities@.len(),
            forall|e2: int|
                0 <= e2 < old(self).entities@.len() && e2 != e as int ==> final(self).entities@[e2]
                    == old(self).entities@[e2],
            forall|x: Cmd|
                #[trigger] old(self).queue@.contains(x) ==> final(self).queue@.contains(x),
            forall|c2: u64|
                #[trigger] old(self).has_record(e as int, c2) ==> final(self).has_record(
                    e as int,
                    c2,
                ),
            !final(self).attached(e as int, old(self).cats@[ci as int].category),
            forall|a2: u64|
                a2 != old(self).cats@[ci as int].category ==> final(self).attached(e as int, a2)
                    == old(self).attached(e as int, a2),
            sum_present(final(self).entities@) == sum_present(old(self).entities@) - 1,
            final(self).queue@.len() <= old(self).queue@.len() + old(self).bound,
            ({
                let c = old(self).cats@[ci as int].category;
                &&& final(self).active(e as int, c).len() == 0
                &&& (forall|s: u64|
                    old(self).declared(c).contains(s) ==> queued_detach_in(
                        final(self).queue@,
                        e as int,
                        s,
                    ))
                &&& (forall|c3: u64|
                    c3 != c ==> final(self).active(e as int, c3) == old(self).active(e as int, c3))
            }),
            // what was newly deferred: removals of declared states only
            forall|e3: int, a3: u64|
                0 <= e3 < old(self).entities@.len() && queued_detach_in(
                    final(self).queue@,
                    e3,
                    a3,
                ) && !queued_detach_in(old(self).queue@, e3, a3) ==> e3 == e as int && old(
                    self,
                ).declared(old(self).cats@[ci as int].category).contains(a3),
            forall|e3: int, c3: u64|
                queued_cond_in(final(self).queue@, e3, c3) ==> queued_cond_in(
                    old(self).queue@,
                    e3,
                    c3,
                ),
    {
        broadcast use vstd::seq_lib::lemma_seq_contains_after_push;

        let ghost s0 = *old(self);
        let ghost ei = e as int;
        let ghost recs0 = s0.entities@[ei].records@;
        let c = self.cats[ci].category;
        let ghost cmdv = Cmd::Detach { entity: e, attr: c };
        let ghost qx = s0.queue@.push(cmdv);
        proof {
            assert(s0.entities.len() == s0.entities@.len());
            assert(s0.wf_entity(ei));
            lemma_cat_unique(s0, c, ci as int);
            assert(rec_listed(recs0, c)) by {
                if !rec_listed(recs0, c) {
                    assert(s0.inv_nocat(ei, ci as int));
                }
            }
        }
        let ri: usize = match find_record(&self.entities[e].records, c) {
            Some(ri) => ri,
            None => {
                proof {
                    assert(false);
                }
                0
            },
        };
        proof {
            lemma_rec_unique(s0, ei, c, ri as int);
            lemma_wf_slot(s0, ei, ri as int);
            assert(s0.inv_slot(qx, ei, ri as int));
        }
        remove_id(&mut self.entities[e].present, c);
        let evict = on_remove_superstate(
            &mut self.entities[e].records[ri].info,
            &self.cats[ci].states,
        );
        let ghost recs2 = self.entities@[ei].records@;
        let ghost qmid = self.queue@;
        proof {
            assert(qmid == s0.queue@);
            assert(recs2 =~= recs0.update(
                ri as int,
                RecordSlot { category: c, info: recs2[ri as int].info },
            ));
            lemma_rec_update_frame(recs0, ri as int, recs2[ri as int].info);
            assert(evict@ == s0.cats@[ci as int].states@);
        }
        let mut k: usize = 0;
        let ghost sa = *self;
        while k < evict.len()
            invariant
                k <= evict@.len(),
                e < sa.entities@.len(),
                self.entities == sa.entities,
                self.cats == sa.cats,
                self.bound == sa.bound,
                self.queue@.len() == sa.queue@.len() + k,
                forall|x: Cmd| #[trigger] sa.queue@.contains(x) ==> self.queue@.contains(x),
                forall|j: int|
                    0 <= j < k ==> queued_detach_in(self.queue@, e as int, #[trigger] evict@[j]),
                forall|j: int| 0 <= j < sa.queue@.len() ==> self.queue@[j] == sa.queue@[j],
                forall|j: int|
                    sa.queue@.len() <= j < self.queue@.len() ==> cmd_entity(
                        #[trigger] self.queue@[j],
                    ) == e as int,
                forall|j: int|
                    sa.queue@.len() <= j < self.queue@.len() ==> #[trigger] self.queue@[j] == (
                    Cmd::Detach { entity: e, attr: evict@[j - sa.queue@.len()] }),
            decreases evict@.len() - k,
        {
            let ghost qb = self.queue@;
            self.queue.push(Cmd::Detach { entity: e, attr: evict[k] });
            proof {
                let qn = self.queue@;
                let cv = Cmd::Detach { entity: e, attr: evict@[k as int] };
                assert(qn == qb.push(cv));
                assert forall|x: Cmd| #[trigger] qb.contains(x) implies qn.contains(x) by {
                    vstd::seq_lib::lemma_seq_contains_after_push(qb, cv, x);
                }
                assert(qn[qn.len() - 1] == cv);
                assert(queued_detach_in(qn, e as int, evict@[k as int]));
            }
            k = k + 1;
        }
        proof {
            let s2 = *self;
            let q0 = s0.queue@;
            let q2 = s2.queue@;
            let ent0 = s0.entities@[ei];
            let ent2 = s2.entities@[ei];
            let acts0 = recs0[ri as int].info.active();
            assert(s2.entities@[ei].records@ == recs2);
            assert(recs2[ri as int].info.active().len() == 0);
            assert(ent2.present@.no_duplicates());
            assert(forall|y: u64|
                #[trigger] ent2.present@.contains(y) <==> (ent0.present@.contains(y) && y != c));
            assert(s2.entities@ =~= s0.entities@.update(ei, ent2));
            lemma_sum_present_update(s0.entities@, ei, ent2);
            assert(forall|x: Cmd| #[trigger] q0.contains(x) ==> q2.contains(x));
            assert(forall|j: int|
                0 <= j < evict@.len() ==> queued_detach_in(q2, ei, #[trigger] evict@[j]));
            lemma_frame_untouched(s0, s2, qx, q2, ei);
            assert(s2.q_wf(q2)) by {
                assert forall|k2: int| 0 <= k2 < q2.len() implies match #[trigger] q2[k2] {
                    Cmd::Detach { entity, .. } => entity < s2.entities@.len(),
                    Cmd::DetachCategoryIfInactive { entity, .. } => entity < s2.entities@.len(),
                } by {
                    if k2 < q0.len() {
                        assert(s0.q_wf(qx));
                        assert(q2[k2] == q0[k2] && q0[k2] == qx[k2]);
                    } else {
                        assert(cmd_entity(q2[k2]) == ei);
                    }
                }
            }
            assert(s2.wf_entity(ei)) by {
                assert forall|r: int| 0 <= r < recs2.len() implies s2.wf_slot(ei, r) by {
                    lemma_wf_slot(s0, ei, r);
                    if r != ri as int {
                        assert(recs2[r] == recs0[r]);
                    }
                }
            }
            assert forall|r: int| 0 <= r < recs2.len() implies s2.inv_slot(q2, ei, r) by {
                assert(s0.inv_slot(qx, ei, r));
                assert(s0.wf_entity(ei));
                lemma_wf_slot(s0, ei, r);
                let slot = recs2[r];
                let c2 = slot.category;
                let acts = slot.info.active();
                if r == ri as int {
                    assert(acts.len() == 0);
                    assert(!ent2.present@.contains(c));
                    assert forall|sv: u64|
                        #[trigger] ent2.present@.contains(sv) && s2.declared(c2).contains(sv)
                            && !acts.contains(sv) implies queued_detach_in(q2, ei, sv) by {
                        assert(s0.declared(c).contains(sv));
                        let j = choose|j: int|
                            0 <= j < evict@.len() && evict@[j] == sv;
                        assert(evict@[j] == sv);
                        assert(queued_detach_in(q2, ei, evict@[j]));
                    }
                } else {
                    assert(slot == recs0[r]);
                    assert(c2 != c);
                    assert(ent2.present@.contains(c2) == ent0.present@.contains(c2));
                    if ent2.present@.contains(c2) && acts.len() == 0 {
                        assert(queued_guard_in(qx, ei, c2));
                        if qx.contains(Cmd::Detach { entity: e, attr: c2 }) {
                            assert(q0.contains(Cmd::Detach { entity: e, attr: c2 }));
                        } else {
                            assert(q0.contains(
                                Cmd::DetachCategoryIfInactive { entity: e, category: c2 },
                            ));
                        }
                        assert(queued_guard_in(q2, ei, c2));
                    }
                    assert forall|i: int, j: int|
                        0 <= i < acts.len() && 0 <= j < acts.len() && i != j implies (
                    queued_detach_in(q2, ei, #[trigger] acts[i]) || queued_detach_in(
                        q2,
                        ei,
                        #[trigger] acts[j],
                    )) by {
                        assert(acts.contains(acts[i]) && acts.contains(acts[j]));
                        assert(s0.declared(c2).contains(acts[i]) && s0.declared(c2).contains(
                            acts[j],
                        ));
                        assert(acts[i] != c && acts[j] != c) by {
                            let cj = cat_index(s0.cats@, c2);
                            assert(cat_listed(s0.cats@, c2));
                            assert(0 <= cj < s0.cats@.len() && s0.cats@[cj].category == c2);
                            assert(cj != ci as int);
                            assert(!s0.cats@[cj].states@.contains(s0.cats@[ci as int].category));
                        }
                        if queued_detach_in(qx, ei, acts[i]) {
                            assert(q0.contains(Cmd::Detach { entity: e, attr: acts[i] }));
                        } else {
                            assert(queued_detach_in(qx, ei, acts[j]));
                            assert(q0.contains(Cmd::Detach { entity: e, attr: acts[j] }));
                        }
                    }
                    assert forall|sv: u64|
                        #[trigger] ent2.present@.contains(sv) && s2.declared(c2).contains(sv)
                            && !acts.contains(sv) implies queued_detach_in(q2, ei, sv) by {
                        assert(sv != c) by {
                            let cj = cat_index(s0.cats@, c2);
                            assert(cat_listed(s0.cats@, c2));
                            assert(0 <= cj < s0.cats@.len() && s0.cats@[cj].category == c2);
                            assert(cj != ci as int);
                            assert(!s0.cats@[cj].states@.contains(s0.cats@[ci as int].category));
                        }
                        assert(ent0.present@.contains(sv));
                        assert(queued_detach_in(qx, ei, sv));
                        assert(q0.contains(Cmd::Detach { entity: e, attr: sv }));
                    }
                    assert forall|sv: u64|
                        #[trigger] acts.contains(sv) implies ent2.present@.contains(sv) by {
                        assert(ent0.present@.contains(sv));
                        assert(sv != c) by {
                            let cj = cat_index(s0.cats@, c2);
                            assert(cat_listed(s0.cats@, c2));
                            assert(0 <= cj < s0.cats@.len() && s0.cats@[cj].category == c2);
                            assert(cj != ci as int);
                            assert(s2.declared(c2).contains(sv));
                            assert(!s0.cats@[cj].states@.contains(s0.cats@[ci as int].category));
                        }
                    }
                }
            }
            assert forall|ci2: int| 0 <= ci2 < s2.cats@.len() implies s2.inv_nocat(ei, ci2) by {
                assert(s0.inv_nocat(ei, ci2));
                assert(forall|c3: u64| #[trigger] rec_listed(recs2, c3) == rec_listed(recs0, c3));
            }
            assert(s2.inv());
            // the caller-facing shape
            lemma_rec_unique(s2, ei, c, ri as int);
            assert(s2.active(ei, c).len() == 0);
            assert forall|sv: u64| s0.declared(c).contains(sv) implies queued_detach_in(
                q2,
                ei,
                sv,
            ) by {
                let j = choose|j: int| 0 <= j < evict@.len() && evict@[j] == sv;
                assert(evict@[j] == sv);
                assert(queued_detach_in(q2, ei, evict@[j]));
            }
            assert forall|c3: u64| c3 != c implies s2.active(ei, c3) == s0.active(ei, c3) by {
                if rec_listed(recs0, c3) {
                    assert(rec_of(recs2, c3) == rec_of(recs0, c3));
                }
            }
            assert forall|c2: u64| #[trigger] s0.has_record(ei, c2) implies s2.has_record(
                ei,
                c2,
            ) by {}
            assert(q2.len() <= q0.len() + s0.bound) by {
                assert(evict@.len() < s0.bound);
            }
            assert(sa.queue@ == q0);
            // what was newly deferred: removals of declared states only
            assert forall|e3: int, a3: u64|
                0 <= e3 < s0.entities@.len() && queued_detach_in(q2, e3, a3) && !queued_detach_in(
                q0,
                e3,
                a3,
            ) implies e3 == ei && s0.declared(c).contains(a3) by {
                let cmdw = Cmd::Detach { entity: e3 as usize, attr: a3 };
                assert(q2.contains(cmdw));
                let kk = choose|kk: int| 0 <= kk < q2.len() && q2[kk] == cmdw;
                if kk < q0.len() {
                    assert(q2[kk] == q0[kk]);
                    assert(q0.contains(cmdw));
                } else {
                    assert(q2[kk] == (Cmd::Detach { entity: e, attr: evict@[kk - q0.len()] }));
                    assert(e3 as usize == e && a3 == evict@[kk - q0.len()]);
                    assert(s0.cats@[ci as int].states@[kk - q0.len()] == a3);
                    assert(s0.declared(c).contains(a3));
                }
            }
            assert forall|e3: int, c3: u64|
                queued_cond_in(q2, e3, c3) implies queued_cond_in(q0, e3, c3) by {
                let cmdw = Cmd::DetachCategoryIfInactive { entity: e3 as usize, category: c3 };
                assert(q2.contains(cmdw));
                let kk = choose|kk: int| 0 <= kk < q2.len() && q2[kk] == cmdw;
                if kk < q0.len() {
                    assert(q2[kk] == q0[kk]);
                    assert(q0.contains(cmdw));
                } else {
                    assert(q2[kk] == (Cmd::Detach { entity: e, attr: evict@[kk - q0.len()] }));
                }
            }
        }
    }
    /// Whether attribute `a` is attached to entity `e`.
    pub fn has_attr(&self, e: usize, a: u64) -> (r: bool)
        requires
            e < self.entities@.len(),
        ensures
            r == self.attached(e as int, a),
    {
        contains_id(&self.entities[e].present, a)
    }

    /// The record entity `e` carries for category `c`, if any. The record
    /// persists once created, even with nothing attached any more.
    pub fn record(&self, e: usize, c: u64) -> (r: Option<&SuperstateInfo>)
        requires
            self.inv(),
            e < self.entities@.len(),
        ensures
            match r {
                Some(info) => self.has_record(e as int, c) && *info == self.record_of(e as int, c),
                None => !self.has_record(e as int, c),
            },
    {
        match find_record(&self.entities[e].records, c) {
            Some(ri) => {
                proof {
                    assert(self.wf_entity(e as int));
                    lemma_rec_unique(*self, e as int, c, ri as int);
                }
                Some(&self.entities[e].records[ri].info)
            },
            None => None,
        }
    }

    /// How many deferred commands are still pending.
    pub fn pending(&self) -> (n: usize)
        ensures
            n == self.queue@.len(),
    {
        self.queue.len()
    }

    /// Applies one structural removal, with the command itself already taken
    /// from the pool: the pool restored by one copy of it must satisfy the
    /// invariant.
    fn do_detach(&mut self, e: usize, a: u64)
        requires
            e < old(self).entities@.len(),
            old(self).inv_q(old(self).queue@.push(Cmd::Detach { entity: e, attr: a })),
        ensures
            final(self).inv(),
            final(self).cats == old(self).cats,
            final(self).bound == old(self).bound,
            final(self).entities@.len() == old(self).entities@.len(),
            forall|e2: int|
                0 <= e2 < old(self).entities@.len() && e2 != e as int ==> final(self).entities@[e2]
                    == old(self).entities@[e2],
            forall|x: Cmd|
                #[trigger] old(self).queue@.contains(x) ==> final(self).queue@.contains(x),
            forall|c2: u64|
                #[trigger] old(self).has_record(e as int, c2) ==> final(self).has_record(
                    e as int,
                    c2,
                ),
            !final(self).attached(e as int, a),
            forall|a2: u64|
                #[trigger] final(self).attached(e as int, a2) ==> old(self).attached(e as int, a2),
            forall|c2: u64, x: u64|
                #[trigger] final(self).active(e as int, c2).contains(x) ==> old(self).active(
                    e as int,
                    c2,
                ).contains(x),
            !old(self).attached(e as int, a) ==> *final(self) == *old(self),
            old(self).attached(e as int, a) ==> (sum_present(final(self).entities@) == sum_present(
                old(self).entities@,
            ) - 1 && final(self).queue@.len() <= old(self).queue@.len() + old(self).bound),
            forall|c2: u64|
                old(self).attached(e as int, a) && #[trigger] old(self).is_state_of(a, c2) ==> {
                    &&& (forall|x: u64|
                        final(self).active(e as int, c2).contains(x) <==> (old(self).active(
                            e as int,
                            c2,
                        ).contains(x) && x != a))
                    &&& (forall|a2: u64|
                        a2 != a ==> final(self).attached(e as int, a2) == old(self).attached(
                            e as int,
                            a2,
                        ))
                    &&& (final(self).active(e as int, c2).len() == 0 ==> queued_guard_in(
                        final(self).queue@,
                        e as int,
                        c2,
                    ))
                },
            (old(self).attached(e as int, a) && old(self).is_category(a)) ==> {
                &&& final(self).active(e as int, a).len() == 0
                &&& (forall|s: u64|
                    old(self).declared(a).contains(s) ==> queued_detach_in(
                        final(self).queue@,
                        e as int,
                        s,
                    ))
                &&& (forall|a2: u64|
                    a2 != a ==> final(self).attached(e as int, a2) == old(self).attached(
                        e as int,
                        a2,
                    ))
            },
            // a tracked state this removal does not aim at keeps its ground
            forall|e3: int, c3: u64, x3: u64|
                #[trigger] old(self).survives(e3, c3, x3) && !(e3 == e as int && (a == x3 || a
                    == c3)) ==> final(self).survives(e3, c3, x3),
    {
        let ghost s0 = *old(self);
        let ghost ei = e as int;
        if !contains_id(&self.entities[e].present, a) {
            proof {
                lemma_inv_q_drop_detach(s0, s0.queue@, e, a);
            }
            return ;
        }
        match lookup_role(&self.cats, a) {
            RoleHit::StateOf(ci) => {
                proof {
                    lemma_state_unique(s0, a, ci as int);
                    assert(!s0.is_category(a)) by {
                        if s0.is_category(a) {
                            let cj = cat_index(s0.cats@, a);
                            assert(cat_listed(s0.cats@, a));
                            assert(0 <= cj < s0.cats@.len() && s0.cats@[cj].category == a);
                            if cj == ci as int {
                                assert(!s0.cats@[cj].states@.contains(s0.cats@[cj].category));
                            } else {
                                assert(!s0.cats@[ci as int].states@.contains(
                                    s0.cats@[cj].category,
                                ));
                            }
                        }
                    }
                }
                self.detach_state(e, ci, a);
                proof {
                    let c = s0.cats@[ci as int].category;
                    assert forall|c2: u64| #[trigger] s0.is_state_of(a, c2) implies c2 == c by {}
                    assert forall|c2: u64, x: u64|
                        #[trigger] final(self).active(ei, c2).contains(x) implies s0.active(
                        ei,
                        c2,
                    ).contains(x) by {
                        if c2 != c {
                            assert(final(self).active(ei, c2) == s0.active(ei, c2));
                        }
                    }
                    let sf = *self;
                    assert forall|e3: int, c3: u64, x3: u64|
                        #[trigger] s0.survives(e3, c3, x3) && !(e3 == ei && (a == x3 || a
                            == c3)) implies sf.survives(e3, c3, x3) by {
                        assert(sf.cats@ == s0.cats@);
                        assert(sf.is_state_of(x3, c3));
                        lemma_state_not_category(s0, x3, c3);
                        if e3 != ei {
                            assert(sf.entities@[e3] == s0.entities@[e3]);
                            assert(sf.active(e3, c3) == s0.active(e3, c3));
                        } else {
                            if c3 == c {
                                assert(x3 != a);
                                assert(sf.active(ei, c).contains(x3));
                            } else {
                                assert(sf.active(ei, c3) == s0.active(ei, c3));
                            }
                        }
                        assert(sf.active(e3, c3).contains(x3));
                        assert(!queued_detach_in(sf.queue@, e3, x3)) by {
                            if queued_detach_in(sf.queue@, e3, x3) {
                                assert(!queued_detach_in(s0.queue@, e3, x3));
                                assert(e3 == ei && x3 == c);
                                lemma_cat_unique(s0, c, ci as int);
                                assert(s0.is_category(x3));
                                assert(false);
                            }
                        }
                        assert(!queued_cond_in(sf.queue@, e3, x3)) by {
                            if queued_cond_in(sf.queue@, e3, x3) {
                                assert(queued_cond_in(s0.queue@, e3, x3));
                            }
                        }
                        assert(!queued_detach_in(sf.queue@, e3, c3)) by {
                            if queued_detach_in(sf.queue@, e3, c3) {
                                assert(!queued_detach_in(s0.queue@, e3, c3));
                                assert(e3 == ei && c3 == c && sf.active(ei, c).len() == 0);
                                assert(sf.active(ei, c).contains(x3));
                            }
                        }
                    }
                }
            },
            RoleHit::CategoryAt(ci) => {
                proof {
                    lemma_cat_unique(s0, a, ci as int);
                    assert forall|c2: u64| !(#[trigger] s0.is_state_of(a, c2)) by {
                        if s0.is_state_of(a, c2) {
                            let cj = cat_index(s0.cats@, c2);
                            assert(cat_listed(s0.cats@, c2));
                            assert(0 <= cj < s0.cats@.len() && s0.cats@[cj].category == c2);
                            if cj == ci as int {
                                assert(!s0.cats@[cj].states@.contains(s0.cats@[cj].category));
                            } else {
                                assert(!s0.cats@[cj].states@.contains(
                                    s0.cats@[ci as int].category,
                                ));
                            }
                        }
                    }
                }
                self.detach_category(e, ci);
                proof {
                    assert forall|c2: u64, x: u64|
                        #[trigger] final(self).active(ei, c2).contains(x) implies s0.active(
                        ei,
                        c2,
                    ).contains(x) by {
                        if c2 != a {
                            assert(final(self).active(ei, c2) == s0.active(ei, c2));
                        } else {
                            assert(final(self).active(ei, a).len() == 0);
                        }
                    }
                    let sf = *self;
                    assert forall|e3: int, c3: u64, x3: u64|
                        #[trigger] s0.survives(e3, c3, x3) && !(e3 == ei && (a == x3 || a
                            == c3)) implies sf.survives(e3, c3, x3) by {
                        assert(sf.cats@ == s0.cats@);
                        assert(sf.is_state_of(x3, c3));
                        if e3 != ei {
                            assert(sf.entities@[e3] == s0.entities@[e3]);
                            assert(sf.active(e3, c3) == s0.active(e3, c3));
                        } else {
                            assert(c3 != a);
                            assert(sf.active(ei, c3) == s0.active(ei, c3));
                        }
                        assert(sf.active(e3, c3).contains(x3));
                        assert(!queued_detach_in(sf.queue@, e3, x3)) by {
                            if queued_detach_in(sf.queue@, e3, x3) {
                                assert(!queued_detach_in(s0.queue@, e3, x3));
                                assert(e3 == ei && s0.declared(a).contains(x3));
                                assert(a != c3);
                                lemma_states_disjoint(s0, x3, c3, a);
                            }
                        }
                        assert(!queued_cond_in(sf.queue@, e3, x3)) by {
                            if queued_cond_in(sf.queue@, e3, x3) {
                                assert(queued_cond_in(s0.queue@, e3, x3));
                            }
                        }
                        assert(!queued_detach_in(sf.queue@, e3, c3)) by {
                            if queued_detach_in(sf.queue@, e3, c3) {
                                assert(!queued_detach_in(s0.queue@, e3, c3));
                                assert(e3 == ei && s0.declared(a).contains(c3));
                                assert(s0.is_state_of(c3, a));
                                lemma_state_not_category(s0, c3, a);
                                assert(s0.is_category(c3));
                                assert(false);
                            }
                        }
                    }
                }
            },
            RoleHit::Unhooked => {
                proof {
                    assert(!s0.is_category(a)) by {
                        if s0.is_category(a) {
                            let cj = cat_index(s0.cats@, a);
                            assert(cat_listed(s0.cats@, a));
                            assert(0 <= cj < s0.cats@.len() && s0.cats@[cj].category == a);
                            assert(busy_in(s0.cats@, a));
                        }
                    }
                    assert forall|c2: u64| !(#[trigger] s0.is_state_of(a, c2)) by {
                        if s0.is_state_of(a, c2) {
                            let cj = cat_index(s0.cats@, c2);
                            assert(cat_listed(s0.cats@, c2));
                            assert(0 <= cj < s0.cats@.len() && s0.cats@[cj].category == c2);
                            assert(s0.cats@[cj].states@.contains(a));
                            assert(busy_in(s0.cats@, a));
                        }
                    }
                }
                self.detach_plain(e, a);
                proof {
                    assert(final(self).entities@[ei].records == s0.entities@[ei].records);
                    assert forall|c2: u64, x: u64|
                        #[trigger] final(self).active(ei, c2).contains(x) implies s0.active(
                        ei,
                        c2,
                    ).contains(x) by {}
                    let sf = *self;
                    assert forall|e3: int, c3: u64, x3: u64|
                        #[trigger] s0.survives(e3, c3, x3) && !(e3 == ei && (a == x3 || a
                            == c3)) implies sf.survives(e3, c3, x3) by {
                        assert(sf.cats@ == s0.cats@);
                        assert(sf.is_state_of(x3, c3));
                        if e3 != ei {
                            assert(sf.entities@[e3] == s0.entities@[e3]);
                            assert(sf.active(e3, c3) == s0.active(e3, c3));
                        } else {
                            assert(sf.entities@[ei].records@ == s0.entities@[ei].records@);
                            assert(sf.active(ei, c3) == s0.active(ei, c3));
                        }
                        assert(sf.active(e3, c3).contains(x3));
                        assert(sf.queue@ == s0.queue@);
                    }
                }
            },
        }
    }

    /// Detaches attribute `a` from entity `e`: a no-op when absent — the
    /// silent tolerance the hooks promise — and otherwise a structural
    /// removal running the matching detach hook, its own removals deferred.
    pub fn detach(&mut self, e: usize, a: u64)
        requires
            old(self).inv(),
            e < old(self).entities@.len(),
        ensures
            final(self).inv(),
            final(self).cats == old(self).cats,
            final(self).bound == old(self).bound,
            final(self).entities@.len() == old(self).entities@.len(),
            forall|e2: int|
                0 <= e2 < old(self).entities@.len() && e2 != e as int ==> final(self).entities@[e2]
                    == old(self).entities@[e2],
            forall|x: Cmd|
                #[trigger] old(self).queue@.contains(x) ==> final(self).queue@.contains(x),
            forall|c2: u64|
                #[trigger] old(self).has_record(e as int, c2) ==> final(self).has_record(
                    e as int,
                    c2,
                ),
            !final(self).attached(e as int, a),
            forall|a2: u64|
                #[trigger] final(self).attached(e as int, a2) ==> old(self).attached(e as int, a2),
            forall|c2: u64, x: u64|
                #[trigger] final(self).active(e as int, c2).contains(x) ==> old(self).active(
                    e as int,
                    c2,
                ).contains(x),
            !old(self).attached(e as int, a) ==> *final(self) == *old(self),
            forall|c2: u64|
                old(self).attached(e as int, a) && #[trigger] old(self).is_state_of(a, c2) ==> {
                    &&& (forall|x: u64|
                        final(self).active(e as int, c2).contains(x) <==> (old(self).active(
                            e as int,
                            c2,
                        ).contains(x) && x != a))
                    &&& (forall|a2: u64|
                        a2 != a ==> final(self).attached(e as int, a2) == old(self).attached(
                            e as int,
                            a2,
                        ))
                    &&& (final(self).active(e as int, c2).len() == 0 ==> queued_guard_in(
                        final(self).queue@,
                        e as int,
                        c2,
                    ))
                },
            (old(self).attached(e as int, a) && old(self).is_category(a)) ==> {
                &&& final(self).active(e as int, a).len() == 0
                &&& (forall|s: u64|
                    old(self).declared(a).contains(s) ==> queued_detach_in(
                        final(self).queue@,
                        e as int,
                        s,
                    ))
                &&& (forall|a2: u64|
                    a2 != a ==> final(self).attached(e as int, a2) == old(self).attached(
                        e as int,
                        a2,
                    ))
            },
    {
        broadcast use vstd::seq_lib::lemma_seq_contains_after_push;

        proof {
            let s0 = *old(self);
            let q0 = s0.queue@;
            let qx = q0.push(Cmd::Detach { entity: e, attr: a });
            assert(s0.q_wf(qx)) by {
                assert forall|k: int| 0 <= k < qx.len() implies match #[trigger] qx[k] {
                    Cmd::Detach { entity, .. } => entity < s0.entities@.len(),
                    Cmd::DetachCategoryIfInactive { entity, .. } => entity < s0.entities@.len(),
                } by {
                    if k < q0.len() {
                        assert(s0.q_wf(q0));
                        assert(qx[k] == q0[k]);
                    } else {
                        assert(qx[k] == (Cmd::Detach { entity: e, attr: a }));
                    }
                }
            }
            lemma_inv_q_mono(s0, q0, qx);
        }
        self.do_detach(e, a);
    }

    /// Applies one guarded category removal taken from the pool: superseded
    /// — a no-op — when a state is active again or the category attribute is
    /// already gone; a plain category removal otherwise.
    fn do_cond_detach(&mut self, e: usize, c: u64)
        requires
            e < old(self).entities@.len(),
            old(self).inv_q(
                old(self).queue@.push(
                    Cmd::DetachCategoryIfInactive { entity: e, category: c },
                ),
            ),
        ensures
            final(self).inv(),
            final(self).cats == old(self).cats,
            final(self).bound == old(self).bound,
            final(self).entities@.len() == old(self).entities@.len(),
            forall|e2: int|
                0 <= e2 < old(self).entities@.len() && e2 != e as int ==> final(self).entities@[e2]
                    == old(self).entities@[e2],
            forall|x: Cmd|
                #[trigger] old(self).queue@.contains(x) ==> final(self).queue@.contains(x),
            forall|c2: u64|
                #[trigger] old(self).has_record(e as int, c2) ==> final(self).has_record(
                    e as int,
                    c2,
                ),
            forall|a2: u64|
                #[trigger] final(self).attached(e as int, a2) ==> old(self).attached(e as int, a2),
            forall|c2: u64, x: u64|
                #[trigger] final(self).active(e as int, c2).contains(x) ==> old(self).active(
                    e as int,
                    c2,
                ).contains(x),
            (*final(self) == *old(self)) || (sum_present(final(self).entities@) == sum_present(
                old(self).entities@,
            ) - 1 && final(self).queue@.len() <= old(self).queue@.len() + old(self).bound),
            // a tracked state this removal does not aim at keeps its ground
            forall|e3: int, c3: u64, x3: u64|
                #[trigger] old(self).survives(e3, c3, x3) && !(e3 == e as int && c == x3)
                    ==> final(self).survives(e3, c3, x3),
    {
        let ghost s0 = *old(self);
        let ghost ei = e as int;
        proof {
            assert(s0.wf_entity(ei));
        }
        let active_empty: bool = match find_record(&self.entities[e].records, c) {
            Some(ri) => {
                proof {
                    lemma_rec_unique(s0, ei, c, ri as int);
                }
                self.entities[e].records[ri].info.states_on_entity.is_empty()
            },
            None => true,
        };
        proof {
            assert(active_empty == (s0.active(ei, c).len() == 0));
        }
        let is_on = contains_id(&self.entities[e].present, c);
        if active_empty && is_on {
            proof {
                lemma_guard_to_detach(s0, s0.queue@, e, c);
            }
            self.do_detach(e, c);
            proof {
                let sf = *self;
                assert forall|e3: int, c3: u64, x3: u64|
                    #[trigger] s0.survives(e3, c3, x3) && !(e3 == ei && c == x3) implies sf.survives(
                    e3,
                    c3,
                    x3,
                ) by {
                    assert(!(e3 == ei && c == c3)) by {
                        if e3 == ei && c == c3 {
                            assert(s0.active(e3, c3).contains(x3));
                            assert(s0.active(ei, c).len() == 0);
                        }
                    }
                }
            }
        } else {
            proof {
                lemma_inv_q_drop_cond(s0, s0.queue@, e, c);
            }
        }
    }

    /// Applies every deferred command, in order, until the queue is empty —
    /// the well-defined later point of the transaction at which the pending
    /// structural removals happen. Applying one command can defer more; the
    /// flush settles them all. It never attaches anything: attributes and
    /// tracked states only go away.
    pub fn flush(&mut self)
        requires
            old(self).inv(),
        ensures
            final(self).inv(),
            final(self).queue@.len() == 0,
            final(self).cats == old(self).cats,
            final(self).bound == old(self).bound,
            final(self).entities@.len() == old(self).entities@.len(),
            forall|e: int, a: u64|
                0 <= e < old(self).entities@.len() && #[trigger] final(self).attached(e, a) ==> old(
                    self,
                ).attached(e, a),
            forall|e: int, c: u64, x: u64|
                0 <= e < old(self).entities@.len() && #[trigger] final(self).active(e, c).contains(
                    x,
                ) ==> old(self).active(e, c).contains(x),
            forall|e: int, c: u64|
                0 <= e < old(self).entities@.len() && #[trigger] old(self).has_record(e, c)
                    ==> final(self).has_record(e, c),
            // a tracked state that nothing pending aimed at is still there,
            // and so is its category attribute
            forall|e: int, c: u64, x: u64|
                #[trigger] old(self).survives(e, c, x) ==> final(self).attached(e, x)
                    && final(self).attached(e, c) && final(self).active(e, c).contains(x),
            old(self).queue@.len() == 0 ==> *final(self) == *old(self),
    {
        while self.queue.len() > 0
            invariant
                self.inv(),
                self.cats == old(self).cats,
                self.bound == old(self).bound,
                self.entities@.len() == old(self).entities@.len(),
                old(self).queue@.len() == 0 ==> *self == *old(self),
                forall|e: int, c: u64, x: u64|
                    #[trigger] old(self).survives(e, c, x) ==> self.survives(e, c, x),
                forall|e: int, a: u64|
                    0 <= e < old(self).entities@.len() && #[trigger] self.attached(e, a) ==> old(
                        self,
                    ).attached(e, a),
                forall|e: int, c: u64, x: u64|
                    0 <= e < old(self).entities@.len() && #[trigger] self.active(e, c).contains(x)
                        ==> old(self).active(e, c).contains(x),
                forall|e: int, c: u64|
                    0 <= e < old(self).entities@.len() && #[trigger] old(self).has_record(e, c)
                        ==> self.has_record(e, c),
            decreases self.queue@.len() + sum_present(self.entities@) * (self.bound as int + 2),
        {
            broadcast use vstd::seq_lib::lemma_seq_contains_after_push;

            let ghost spre = *self;
            let cmd = self.queue.remove(0);
            proof {
                let rest = self.queue@;
                assert(rest == spre.queue@.remove(0));
                assert(cmd == spre.queue@[0]);
                assert forall|x: Cmd| #[trigger] spre.queue@.contains(x) implies rest.push(
                    cmd,
                ).contains(x) by {
                    lemma_contains_pop(spre.queue@, x);
                    if x == cmd {
                        assert(rest.push(cmd)[rest.len() as int] == cmd);
                    }
                }
                assert(spre.q_wf(rest.push(cmd))) by {
                    assert forall|k: int| 0 <= k < rest.push(cmd).len() implies match #[trigger] rest.push(
                        cmd,
                    )[k] {
                        Cmd::Detach { entity, .. } => entity < spre.entities@.len(),
                        Cmd::DetachCategoryIfInactive { entity, .. } => entity
                            < spre.entities@.len(),
                    } by {
                        assert(spre.q_wf(spre.queue@));
                        if k < rest.len() {
                            assert(rest.push(cmd)[k] == rest[k]);
                            assert(rest[k] == spre.queue@[k + 1]);
                        } else {
                            assert(rest.push(cmd)[k] == cmd);
                            assert(cmd == spre.queue@[0]);
                        }
                    }
                }
                lemma_inv_q_mono(spre, spre.queue@, rest.push(cmd));
                lemma_inv_q_requeue(spre, *self, rest.push(cmd));
                lemma_sum_present_nonneg(self.entities@);
            }
            let ghost smid = *self;
            match cmd {
                Cmd::Detach { entity, attr } => {
                    proof {
                        assert(spre.q_wf(spre.queue@));
                        assert(cmd_entity(spre.queue@[0]) < spre.entities@.len());
                    }
                    self.do_detach(entity, attr);
                    proof {
                        if !smid.attached(entity as int, attr) {
                            assert(*self == smid);
                        } else {
                            assert(sum_present(self.entities@) == sum_present(smid.entities@) - 1);
                            assert(self.queue@.len() <= smid.queue@.len() + smid.bound);
                        }
                        assert(spre.entities.len() == spre.entities@.len());
                        assert(cmd == (Cmd::Detach { entity, attr }));
                        let snew = *self;
                        let rest = smid.queue@;
                        assert forall|e2: int, c2: u64, x2: u64|
                            #[trigger] old(self).survives(e2, c2, x2) implies snew.survives(
                            e2,
                            c2,
                            x2,
                        ) by {
                            assert(spre.survives(e2, c2, x2));
                            assert(smid.survives(e2, c2, x2)) by {
                                assert(smid.is_state_of(x2, c2));
                                assert(smid.active(e2, c2) == spre.active(e2, c2));
                                if queued_detach_in(rest, e2, x2) {
                                    lemma_contains_pop(
                                        spre.queue@,
                                        Cmd::Detach { entity: e2 as usize, attr: x2 },
                                    );
                                }
                                if queued_cond_in(rest, e2, x2) {
                                    lemma_contains_pop(
                                        spre.queue@,
                                        Cmd::DetachCategoryIfInactive {
                                            entity: e2 as usize,
                                            category: x2,
                                        },
                                    );
                                }
                                if queued_detach_in(rest, e2, c2) {
                                    lemma_contains_pop(
                                        spre.queue@,
                                        Cmd::Detach { entity: e2 as usize, attr: c2 },
                                    );
                                }
                            }
                            assert(!(e2 == entity as int && (attr == x2 || attr == c2))) by {
                                if e2 == entity as int && attr == x2 {
                                    assert(spre.queue@[0] == (Cmd::Detach {
                                        entity: e2 as usize,
                                        attr: x2,
                                    }));
                                    assert(queued_detach_in(spre.queue@, e2, x2));
                                }
                                if e2 == entity as int && attr == c2 {
                                    assert(spre.queue@[0] == (Cmd::Detach {
                                        entity: e2 as usize,
                                        attr: c2,
                                    }));
                                    assert(queued_detach_in(spre.queue@, e2, c2));
                                }
                            }
                        }
                    }
                },
                Cmd::DetachCategoryIfInactive { entity, category } => {
                    proof {
                        assert(spre.q_wf(spre.queue@));
                        assert(cmd_entity(spre.queue@[0]) < spre.entities@.len());
                    }
                    self.do_cond_detach(entity, category);
                    proof {
                        assert(spre.entities.len() == spre.entities@.len());
                        assert(cmd == (Cmd::DetachCategoryIfInactive { entity, category }));
                        let snew = *self;
                        let rest = smid.queue@;
                        assert forall|e2: int, c2: u64, x2: u64|
                            #[trigger] old(self).survives(e2, c2, x2) implies snew.survives(
                            e2,
                            c2,
                            x2,
                        ) by {
                            assert(spre.survives(e2, c2, x2));
                            assert(smid.survives(e2, c2, x2)) by {
                                assert(smid.is_state_of(x2, c2));
                                assert(smid.active(e2, c2) == spre.active(e2, c2));
                                if queued_detach_in(rest, e2, x2) {
                                    lemma_contains_pop(
                                        spre.queue@,
                                        Cmd::Detach { entity: e2 as usize, attr: x2 },
                                    );
                                }
                                if queued_cond_in(rest, e2, x2) {
                                    lemma_contains_pop(
                                        spre.queue@,
                                        Cmd::DetachCategoryIfInactive {
                                            entity: e2 as usize,
                                            category: x2,
                                        },
                                    );
                                }
                                if queued_detach_in(rest, e2, c2) {
                                    lemma_contains_pop(
                                        spre.queue@,
                                        Cmd::Detach { entity: e2 as usize, attr: c2 },
                                    );
                                }
                            }
                            assert(!(e2 == entity as int && category == x2)) by {
                                if e2 == entity as int && category == x2 {
                                    assert(spre.queue@[0] == (Cmd::DetachCategoryIfInactive {
                                        entity: e2 as usize,
                                        category: x2,
                                    }));
                                    assert(queued_cond_in(spre.queue@, e2, x2));
                                }
                            }
                        }
                    }
                },
            }
            proof {
                let snew = *self;
                let ge = cmd_entity(cmd);
                // the pass only removes: chain the bounds through this step
                assert forall|e: int, a: u64|
                    0 <= e < old(self).entities@.len() && #[trigger] snew.attached(e, a) implies old(
                    self,
                ).attached(e, a) by {
                    if e != ge {
                        assert(snew.entities@[e] == smid.entities@[e]);
                        assert(smid.entities@[e] == spre.entities@[e]);
                        assert(spre.attached(e, a));
                    } else {
                        assert(smid.attached(e, a));
                        assert(spre.attached(e, a));
                    }
                }
                assert forall|e: int, c: u64, x: u64|
                    0 <= e < old(self).entities@.len() && #[trigger] snew.active(e, c).contains(
                    x,
                ) implies old(self).active(e, c).contains(x) by {
                    if e != ge {
                        assert(snew.entities@[e] == smid.entities@[e]);
                        assert(smid.entities@[e] == spre.entities@[e]);
                        assert(spre.active(e, c).contains(x));
                    } else {
                        assert(smid.active(e, c).contains(x));
                        assert(spre.active(e, c).contains(x));
                    }
                }
                assert forall|e: int, c: u64|
                    0 <= e < old(self).entities@.len() && #[trigger] old(self).has_record(
                    e,
                    c,
                ) implies snew.has_record(e, c) by {
                    assert(spre.has_record(e, c));
                    assert(smid.has_record(e, c));
                    if e != ge {
                        assert(snew.entities@[e] == smid.entities@[e]);
                    }
                }
                // the measure shrinks
                lemma_sum_present_nonneg(snew.entities@);
                let b = spre.bound as int;
                let lq = spre.queue@.len() as int;
                let sp = sum_present(spre.entities@);
                if *self == smid {
                    assert(self.queue@.len() == lq - 1);
                } else {
                    assert(sum_present(self.entities@) == sp - 1);
                    assert(self.queue@.len() <= lq - 1 + b);
                    assert((sp - 1) * (b + 2) == sp * (b + 2) - (b + 2)) by (nonlinear_arith);
                }
            }
        }
        proof {
            assert forall|e: int, c: u64, x: u64|
                #[trigger] old(self).survives(e, c, x) implies (self.attached(e, x)
                && self.attached(e, c) && self.active(e, c).contains(x)) by {
                assert(self.survives(e, c, x));
                assert(self.active(e, c).contains(x));
                let recs = self.entities@[e].records@;
                assert(rec_listed(recs, c));
                let r = rec_index(recs, c);
                assert(0 <= r < recs.len() && recs[r].category == c);
                assert(self.wf_entity(e));
                lemma_rec_unique(*self, e, c, r);
                assert(self.inv_slot(self.queue@, e, r));
                let acts = recs[r].info.active();
                assert(acts == self.active(e, c));
                assert(acts.contains(x));
                assert(acts.len() > 0);
            }
        }
    }
}

/// One-call setup: registers the hooks for `category` and `states` and
/// expects the slots to be free, as the application-level wrapper does.
pub fn superstate_plugin(store: &mut Store, category: u64, states: &Vec<u64>)
    requires
        old(store).inv(),
        states@.no_duplicates(),
        !states@.contains(category),
        states@.len() < usize::MAX,
        !old(store).hook_busy(category),
        forall|s: u64| states@.contains(s) ==> !old(store).hook_busy(s),
        forall|e: int|
            0 <= e < old(store).entities@.len() ==> !old(store).attached(e, category),
        forall|e: int, s: u64|
            0 <= e < old(store).entities@.len() && states@.contains(s) ==> !old(store).attached(
                e,
                s,
            ),
    ensures
        final(store).inv(),
        final(store).entities == old(store).entities,
        final(store).queue == old(store).queue,
        final(store).is_category(category),
        final(store).declared(category) == states@,
        forall|c2: u64|
            c2 != category ==> final(store).is_category(c2) == old(store).is_category(c2),
        forall|c2: u64|
            c2 != category && old(store).is_category(c2) ==> final(store).declared(c2) == old(
                store,
            ).declared(c2),
{
    let r = register_hooks(store, category, states);
    match r {
        Ok(()) => {
        },
        Err(err) => {
            proof {
                assert(old(store).hook_busy(err.0));
                assert(false);
            }
        },
    }
}

} // verus!
