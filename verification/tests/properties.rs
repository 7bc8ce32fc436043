use superstate::register_hooks;
use superstate::superstate_plugin;
use superstate::HookBusyError;
use superstate::Store;

const CAT: u64 = 1;
const A: u64 = 10;
const B: u64 = 11;
const C: u64 = 12;

fn fresh() -> (Store, usize) {
    let mut world = Store::new();
    register_hooks(&mut world, CAT, &vec![A, B, C]).unwrap();
    let e = world.spawn();
    (world, e)
}

#[test]
fn exclusivity_last_write_wins() {
    let (mut world, e) = fresh();
    world.attach(e, A);
    world.attach(e, B);
    world.flush();
    assert!(world.has_attr(e, B));
    assert!(!world.has_attr(e, A));
    assert!(world.has_attr(e, CAT));
    let info = world.record(e, CAT).unwrap();
    assert_eq!(info.states_on_entity, vec![B]);
}

#[test]
fn category_follows_state() {
    let (mut world, e) = fresh();
    assert!(!world.has_attr(e, CAT));
    world.attach(e, A);
    world.flush();
    assert!(world.has_attr(e, CAT));
    world.detach(e, A);
    world.flush();
    assert!(!world.has_attr(e, CAT));
    assert!(!world.has_attr(e, A));
}

#[test]
fn registration_population_is_idempotent() {
    let (mut world, e) = fresh();
    world.attach(e, B);
    world.flush();
    assert_eq!(world.record(e, CAT).unwrap().state_ids, vec![A, B, C]);
    world.detach(e, B);
    world.attach(e, C);
    world.attach(e, A);
    world.flush();
    // populated once, never rewritten, whatever the attach order
    assert_eq!(world.record(e, CAT).unwrap().state_ids, vec![A, B, C]);
}

#[test]
fn cascade_on_category_removal() {
    let (mut world, e) = fresh();
    world.attach(e, A);
    world.flush();
    world.detach(e, CAT);
    world.flush();
    assert!(!world.has_attr(e, A));
    assert!(!world.has_attr(e, CAT));
    let info = world.record(e, CAT).unwrap();
    assert!(info.states_on_entity.is_empty());
}

#[test]
fn record_persists_and_is_reusable() {
    let (mut world, e) = fresh();
    world.attach(e, A);
    world.flush();
    world.detach(e, A);
    world.flush();
    let info = world.record(e, CAT).unwrap();
    assert!(info.states_on_entity.is_empty());
    assert_eq!(info.state_ids, vec![A, B, C]);
    world.attach(e, B);
    world.flush();
    assert_eq!(world.record(e, CAT).unwrap().states_on_entity, vec![B]);
    assert!(world.has_attr(e, B) && world.has_attr(e, CAT));
}

#[test]
fn busy_hook_rejection_on_shared_state() {
    let mut world = Store::new();
    register_hooks(&mut world, 1, &vec![10, 11]).unwrap();
    let r = register_hooks(&mut world, 2, &vec![11, 12]);
    assert_eq!(r.unwrap_err(), HookBusyError(11));
    // nothing of the failed pair was wired: the same states register fine
    // under identities that are still free
    let r2 = register_hooks(&mut world, 2, &vec![12, 11]);
    assert_eq!(r2.unwrap_err(), HookBusyError(11));
    register_hooks(&mut world, 2, &vec![12, 13]).unwrap();
}

#[test]
fn busy_hook_rejection_on_reused_category() {
    let mut world = Store::new();
    register_hooks(&mut world, 1, &vec![10, 11]).unwrap();
    // a state identity cannot serve as a category identity afterwards
    let r = register_hooks(&mut world, 10, &vec![20]);
    assert_eq!(r.unwrap_err(), HookBusyError(10));
    // nor can a category identity be registered twice
    let r2 = register_hooks(&mut world, 1, &vec![21]);
    assert_eq!(r2.unwrap_err(), HookBusyError(1));
}

#[test]
fn category_alone_does_not_stay() {
    let (mut world, e) = fresh();
    world.attach(e, CAT);
    world.flush();
    assert!(!world.has_attr(e, CAT));
    // the record was still brought into existence
    assert!(world.record(e, CAT).is_some());
}

#[test]
fn category_guard_superseded_by_state_in_same_transaction() {
    let (mut world, e) = fresh();
    world.attach(e, A);
    assert!(world.pending() > 0);
    world.flush();
    assert_eq!(world.pending(), 0);
    assert!(world.has_attr(e, CAT) && world.has_attr(e, A));
}

#[test]
fn unhooked_attribute_is_untouched() {
    let (mut world, e) = fresh();
    world.attach(e, 99);
    world.attach(e, A);
    world.flush();
    assert!(world.has_attr(e, 99));
    world.detach(e, CAT);
    world.flush();
    assert!(world.has_attr(e, 99));
}

#[test]
fn detach_of_untracked_state_is_silent() {
    let (mut world, e) = fresh();
    world.detach(e, B);
    world.flush();
    assert!(!world.has_attr(e, B));
    world.attach(e, A);
    world.flush();
    world.detach(e, B);
    world.flush();
    // the no-op detach left the tracked state alone
    assert!(world.has_attr(e, A) && world.has_attr(e, CAT));
}

#[test]
fn two_categories_are_independent() {
    let mut world = Store::new();
    superstate_plugin(&mut world, 1, &vec![10, 11]);
    superstate_plugin(&mut world, 2, &vec![20, 21]);
    let e = world.spawn();
    world.attach(e, 10);
    world.attach(e, 20);
    world.flush();
    assert!(world.has_attr(e, 10) && world.has_attr(e, 1));
    assert!(world.has_attr(e, 20) && world.has_attr(e, 2));
    world.detach(e, 10);
    world.flush();
    assert!(!world.has_attr(e, 1));
    assert!(world.has_attr(e, 20) && world.has_attr(e, 2));
    world.detach(e, 2);
    world.flush();
    assert!(!world.has_attr(e, 20) && !world.has_attr(e, 2));
}

#[test]
fn entities_do_not_interfere() {
    let (mut world, e1) = fresh();
    let e2 = world.spawn();
    world.attach(e1, A);
    world.attach(e2, B);
    world.flush();
    assert!(world.has_attr(e1, A) && !world.has_attr(e1, B));
    assert!(world.has_attr(e2, B) && !world.has_attr(e2, A));
    world.detach(e1, CAT);
    world.flush();
    assert!(!world.has_attr(e1, A));
    assert!(world.has_attr(e2, B) && world.has_attr(e2, CAT));
}
