use superstate::laws::settle_after_competing_attaches;
use superstate::laws::settle_after_cycle;
use superstate::laws::settle_after_state_attach;
use superstate::register_hooks;
use superstate::Store;

#[test]
fn law_state_attach_settles() {
    let mut world = Store::new();
    register_hooks(&mut world, 1, &vec![10, 11]).unwrap();
    let e = world.spawn();
    settle_after_state_attach(&mut world, e, 10, 1);
    assert!(world.has_attr(e, 10));
    assert!(world.has_attr(e, 1));
}

#[test]
fn law_competing_attaches_settle() {
    let mut world = Store::new();
    register_hooks(&mut world, 1, &vec![10, 11]).unwrap();
    let e = world.spawn();
    settle_after_competing_attaches(&mut world, e, 10, 11, 1);
    assert!(world.has_attr(e, 11));
    assert!(!world.has_attr(e, 10));
    assert!(world.has_attr(e, 1));
}

#[test]
fn law_cycle_settles() {
    let mut world = Store::new();
    register_hooks(&mut world, 1, &vec![10, 11]).unwrap();
    let e = world.spawn();
    settle_after_cycle(&mut world, e, 10, 11, 1);
    assert_eq!(world.record(e, 1).unwrap().states_on_entity, vec![11]);
    assert!(world.has_attr(e, 11));
    assert!(world.has_attr(e, 1));
    assert!(!world.has_attr(e, 10));
}
