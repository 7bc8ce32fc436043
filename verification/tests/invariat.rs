use superstate::register_hooks;
use superstate::Store;

const MOVEMENT: u64 = 1;
const WALKING: u64 = 10;
const RUNNING: u64 = 11;
const FLYING: u64 = 12;

fn no_states_and_superstate(world: &Store, e: usize) -> bool {
    !world.has_attr(e, MOVEMENT)
        && !world.has_attr(e, WALKING)
        && !world.has_attr(e, RUNNING)
        && !world.has_attr(e, FLYING)
}

#[test]
fn main() {
    let mut world = Store::new();
    register_hooks(&mut world, MOVEMENT, &vec![WALKING, RUNNING, FLYING]).unwrap();
    let e = world.spawn();
    world.flush();
    assert!(no_states_and_superstate(&world, e));

    world.attach(e, WALKING);
    world.flush();
    assert!(world.has_attr(e, WALKING) && world.has_attr(e, MOVEMENT));
    assert!(!world.has_attr(e, RUNNING));
    assert!(!world.has_attr(e, FLYING));

    world.attach(e, RUNNING);
    world.flush();
    assert!(world.has_attr(e, RUNNING) && world.has_attr(e, MOVEMENT));
    assert!(!world.has_attr(e, WALKING));
    assert!(!world.has_attr(e, FLYING));

    world.detach(e, RUNNING);
    world.flush();
    assert!(no_states_and_superstate(&world, e));

    world.attach(e, FLYING);
    world.flush();
    assert!(world.has_attr(e, FLYING) && world.has_attr(e, MOVEMENT));

    world.detach(e, MOVEMENT);
    world.flush();
    assert!(no_states_and_superstate(&world, e));
}
