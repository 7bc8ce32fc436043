//! The guarantees that hold of every settled transaction: once the deferred
//! command queue has been flushed empty, every entity is back in a steady
//! state for every registered category. The proof functions state them over
//! one settled store; the executable functions at the end state them over
//! whole transactions — attach, detach, flush in sequence — which no single
//! operation's contract can express.

use vstd::prelude::*;
use crate::store::{cat_index, cat_listed, rec_index, rec_listed, Cmd, Store};
use crate::store::{lemma_active_attached, lemma_active_declared, lemma_category_not_own_state};
use crate::store::{lemma_rec_unique, lemma_state_category_unique, lemma_state_not_category};
use crate::store::{lemma_wf_slot, queued_cond_in, queued_detach_in, queued_guard_in};

verus! {

/// In a settled store the tracked set of a category on an entity is exactly
/// the set of its declared states attached to the entity, and it holds at
/// most one element.
pub proof fn lemma_settled_active(s: Store, e: int, c: u64)
    requires
        s.inv(),
        s.queue@.len() == 0,
        0 <= e < s.entities@.len(),
        s.is_category(c),
    ensures
        s.active(e, c).len() <= 1,
        forall|x: u64|
            #[trigger] s.active(e, c).contains(x) <==> (s.is_state_of(x, c) && s.attached(e, x)),
{
    let q = s.queue@;
    let ent = s.entities@[e];
    let recs = ent.records@;
    let ci = cat_index(s.cats@, c);
    assert(cat_listed(s.cats@, c));
    assert(0 <= ci < s.cats@.len() && s.cats@[ci].category == c);
    assert(s.wf_entity(e));
    if rec_listed(recs, c) {
        let r = rec_index(recs, c);
        assert(0 <= r < recs.len() && recs[r].category == c);
        lemma_rec_unique(s, e, c, r);
        lemma_wf_slot(s, e, r);
        assert(s.inv_slot(q, e, r));
        let acts = recs[r].info.active();
        assert(s.active(e, c) == acts);
        assert(acts.len() <= 1) by {
            if acts.len() >= 2 {
                let x0 = acts[0];
                let x1 = acts[1];
                assert(queued_detach_in(q, e, x0) || queued_detach_in(q, e, x1));
                assert(!q.contains(Cmd::Detach { entity: e as usize, attr: x0 }));
                assert(!q.contains(Cmd::Detach { entity: e as usize, attr: x1 }));
                assert(false);
            }
        }
        assert forall|x: u64| #[trigger] acts.contains(x) implies (s.is_state_of(x, c)
            && s.attached(e, x)) by {
            assert(s.declared(c).contains(x));
            assert(ent.present@.contains(x));
        }
        assert forall|x: u64| s.is_state_of(x, c) && s.attached(e, x) implies acts.contains(x) by {
            assert(ent.present@.contains(x));
            assert(s.declared(c).contains(x));
        }
    } else {
        assert(s.active(e, c).len() == 0);
        assert(s.inv_nocat(e, ci));
        assert forall|x: u64| !(s.is_state_of(x, c) && s.attached(e, x)) by {
            if s.is_state_of(x, c) && s.attached(e, x) {
                assert(s.cats@[ci].states@.contains(x));
                assert(!ent.present@.contains(x));
            }
        }
    }
}

/// Exclusivity: after any settled transaction, at most one state attribute
/// of a category is attached to an entity — of several states attached in
/// one transaction, only the last one survives the flush.
pub proof fn lemma_settled_exclusive(s: Store, e: int, c: u64, x: u64, y: u64)
    requires
        s.inv(),
        s.queue@.len() == 0,
        0 <= e < s.entities@.len(),
        s.is_state_of(x, c),
        s.is_state_of(y, c),
        s.attached(e, x),
        s.attached(e, y),
    ensures
        x == y,
{
    lemma_settled_active(s, e, c);
    let acts = s.active(e, c);
    assert(acts.contains(x) && acts.contains(y));
    let i = choose|i: int| 0 <= i < acts.len() && acts[i] == x;
    let j = choose|j: int| 0 <= j < acts.len() && acts[j] == y;
    assert(i == 0 && j == 0);
}

/// Category-follows-state: after any settled transaction, the category
/// attribute is attached to an entity exactly when at least one of its state
/// attributes is.
pub proof fn lemma_settled_category_iff_state(s: Store, e: int, c: u64)
    requires
        s.inv(),
        s.queue@.len() == 0,
        0 <= e < s.entities@.len(),
        s.is_category(c),
    ensures
        s.attached(e, c) <==> exists|x: u64| s.is_state_of(x, c) && s.attached(e, x),
{
    lemma_settled_active(s, e, c);
    let q = s.queue@;
    let ent = s.entities@[e];
    let recs = ent.records@;
    let ci = cat_index(s.cats@, c);
    assert(cat_listed(s.cats@, c));
    assert(0 <= ci < s.cats@.len() && s.cats@[ci].category == c);
    assert(s.wf_entity(e));
    if s.attached(e, c) {
        assert(rec_listed(recs, c)) by {
            if !rec_listed(recs, c) {
                assert(s.inv_nocat(e, ci));
            }
        }
        let r = rec_index(recs, c);
        assert(0 <= r < recs.len() && recs[r].category == c);
        lemma_rec_unique(s, e, c, r);
        assert(s.inv_slot(q, e, r));
        let acts = recs[r].info.active();
        assert(acts.len() > 0) by {
            if acts.len() == 0 {
                assert(ent.present@.contains(c));
            }
        }
        let x = acts[0];
        assert(acts.contains(x));
        assert(s.is_state_of(x, c) && s.attached(e, x));
    }
    if exists|x: u64| s.is_state_of(x, c) && s.attached(e, x) {
        let x = choose|x: u64| s.is_state_of(x, c) && s.attached(e, x);
        assert(s.active(e, c).contains(x));
        assert(rec_listed(recs, c));
        let r = rec_index(recs, c);
        assert(0 <= r < recs.len() && recs[r].category == c);
        lemma_rec_unique(s, e, c, r);
        assert(s.inv_slot(q, e, r));
        let acts = recs[r].info.active();
        assert(acts.contains(x));
        assert(acts.len() > 0);
        assert(ent.present@.contains(c));
    }
}

/// Idempotent registration population: a record's declared set is populated
/// at most once, and when populated it equals the category's declared
/// bundle, regardless of attach order or repeated lazy-init attempts.
pub proof fn lemma_registered_pinned(s: Store, e: int, c: u64)
    requires
        s.inv(),
        0 <= e < s.entities@.len(),
        s.has_record(e, c),
    ensures
        s.is_category(c),
        s.record_of(e, c).registered() == s.declared(c) || s.record_of(e, c).registered().len()
            == 0,
{
    let recs = s.entities@[e].records@;
    let r = rec_index(recs, c);
    assert(rec_listed(recs, c));
    assert(0 <= r < recs.len() && recs[r].category == c);
    assert(s.wf_entity(e));
    lemma_rec_unique(s, e, c, r);
    lemma_wf_slot(s, e, r);
}

/// Category-follows-state, the transaction it comes from: attaching a state
/// to a settled store and flushing leaves both the state and its category
/// attribute attached.
pub fn settle_after_state_attach(s: &mut Store, e: usize, a: u64, c: u64)
    requires
        old(s).inv(),
        old(s).queue@.len() == 0,
        e < old(s).entities@.len(),
        old(s).is_state_of(a, c),
        !old(s).attached(e as int, a),
    ensures
        final(s).inv(),
        final(s).queue@.len() == 0,
        final(s).attached(e as int, a),
        final(s).attached(e as int, c),
{
    s.attach(e, a);
    s.flush();
}

/// Exclusivity, the transaction it comes from: attaching two states of one
/// category in the same transaction leaves only the one attached last, with
/// the category attribute still present.
pub fn settle_after_competing_attaches(s: &mut Store, e: usize, a: u64, b: u64, c: u64)
    requires
        old(s).inv(),
        old(s).queue@.len() == 0,
        e < old(s).entities@.len(),
        old(s).is_state_of(a, c),
        old(s).is_state_of(b, c),
        a != b,
        !old(s).attached(e as int, a),
        !old(s).attached(e as int, b),
    ensures
        final(s).inv(),
        final(s).queue@.len() == 0,
        final(s).attached(e as int, b),
        final(s).attached(e as int, c),
        !final(s).attached(e as int, a),
{
    let ghost s0 = *old(s);
    let ghost ei = e as int;
    s.attach(e, a);
    let ghost s1 = *s;
    proof {
        // nothing pending aims at the state attached second
        assert(!queued_guard_in(s1.queue@, ei, b)) by {
            if queued_detach_in(s1.queue@, ei, b) {
                let c2 = choose|c2: u64| s0.is_state_of(a, c2) && s0.active(ei, c2).contains(b);
                lemma_state_category_unique(s0, a, c2, c);
                lemma_active_attached(s0, ei, c, b);
            }
            if queued_cond_in(s1.queue@, ei, b) {
                lemma_state_not_category(s0, a, c);
                assert(s0.is_state_of(a, b));
                lemma_state_category_unique(s0, a, b, c);
                lemma_state_not_category(s0, b, c);
                assert(s0.is_category(b));
            }
        }
        assert(!queued_detach_in(s1.queue@, ei, c)) by {
            if queued_detach_in(s1.queue@, ei, c) {
                let c2 = choose|c2: u64| s0.is_state_of(a, c2) && s0.active(ei, c2).contains(c);
                lemma_state_category_unique(s0, a, c2, c);
                lemma_active_declared(s0, ei, c, c);
                lemma_category_not_own_state(s0, c);
            }
        }
        assert(!s1.attached(ei, b)) by {
            lemma_state_not_category(s0, a, c);
            assert(b != c) by {
                if b == c {
                    lemma_state_not_category(s0, b, c);
                }
            }
        }
        assert(s1.is_state_of(b, c));
    }
    s.attach(e, b);
    s.flush();
    proof {
        if s.attached(ei, a) {
            lemma_settled_exclusive(*s, ei, c, a, b);
        }
    }
}

/// Record persistence, the transactions it comes from: after cycling a state
/// on and off, the record is still there, and attaching another state of the
/// category settles to exactly that one tracked state.
pub fn settle_after_cycle(s: &mut Store, e: usize, a: u64, b: u64, c: u64)
    requires
        old(s).inv(),
        old(s).queue@.len() == 0,
        e < old(s).entities@.len(),
        old(s).is_state_of(a, c),
        old(s).is_state_of(b, c),
        a != b,
        !old(s).attached(e as int, a),
        !old(s).attached(e as int, b),
    ensures
        final(s).inv(),
        final(s).queue@.len() == 0,
        final(s).has_record(e as int, c),
        final(s).attached(e as int, b),
        final(s).attached(e as int, c),
        !final(s).attached(e as int, a),
        final(s).active(e as int, c) == seq![b],
{
    let ghost s0 = *old(s);
    let ghost ei = e as int;
    proof {
        lemma_state_not_category(s0, a, c);
        lemma_state_not_category(s0, b, c);
        assert(b != c) by {
            if b == c {
                assert(s0.is_category(c));
            }
        }
    }
    s.attach(e, a);
    s.flush();
    s.detach(e, a);
    s.flush();
    proof {
        assert(!s.attached(ei, b));
        assert(s.is_state_of(b, c));
        assert(s.has_record(ei, c));
    }
    s.attach(e, b);
    s.flush();
    proof {
        if s.attached(ei, a) {
            lemma_settled_exclusive(*s, ei, c, a, b);
        }
        lemma_settled_active(*s, ei, c);
        assert(s.active(ei, c).contains(b));
        let k = choose|k: int| 0 <= k < s.active(ei, c).len() && s.active(ei, c)[k] == b;
        assert(k == 0);
        assert(s.active(ei, c) =~= seq![b]);
    }
}

} // verus!
