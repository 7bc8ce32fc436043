use superstate::hooks::on_add_hook_state;
use superstate::hooks::on_add_superstate;
use superstate::hooks::on_remove_hook_state;
use superstate::hooks::on_remove_superstate;
use superstate::SuperstateInfo;

#[test]
fn add_state_hook_populates_lazily_and_evicts_others() {
    let mut info = SuperstateInfo::default();
    let declared = vec![10u64, 11, 12];
    let evict = on_add_hook_state(&mut info, &declared, 10);
    assert_eq!(info.state_ids, vec![10, 11, 12]);
    assert_eq!(info.states_on_entity, vec![10]);
    assert!(evict.is_empty());
    let evict = on_add_hook_state(&mut info, &declared, 11);
    assert_eq!(evict, vec![10]);
    assert_eq!(info.states_on_entity, vec![10, 11]);
    // the declared set was populated once and stays as it is
    assert_eq!(info.state_ids, vec![10, 11, 12]);
}

#[test]
fn remove_state_hook_reports_when_nothing_is_left() {
    let mut info = SuperstateInfo::default();
    let declared = vec![10u64, 11];
    on_add_hook_state(&mut info, &declared, 10);
    on_add_hook_state(&mut info, &declared, 11);
    assert!(!on_remove_hook_state(&mut info, 10));
    assert_eq!(info.states_on_entity, vec![11]);
    // removing something untracked is a tolerated no-op
    assert!(!on_remove_hook_state(&mut info, 10));
    assert!(on_remove_hook_state(&mut info, 11));
    assert!(info.states_on_entity.is_empty());
}

#[test]
fn add_superstate_hook_guards_the_empty_record() {
    let mut info = SuperstateInfo::default();
    assert!(on_add_superstate(&info));
    on_add_hook_state(&mut info, &vec![10u64], 10);
    assert!(!on_add_superstate(&info));
}

#[test]
fn remove_superstate_hook_clears_and_returns_the_bundle() {
    let mut info = SuperstateInfo::default();
    let declared = vec![10u64, 11, 12];
    on_add_hook_state(&mut info, &declared, 11);
    let evict = on_remove_superstate(&mut info, &declared);
    assert_eq!(evict, vec![10, 11, 12]);
    assert!(info.states_on_entity.is_empty());
    assert_eq!(info.state_ids, vec![10, 11, 12]);
}

#[test]
fn remove_by_id_swaps_in_the_last_entry() {
    let mut info = SuperstateInfo::default();
    let declared = vec![10u64, 11, 12];
    on_add_hook_state(&mut info, &declared, 10);
    on_add_hook_state(&mut info, &declared, 11);
    on_add_hook_state(&mut info, &declared, 12);
    info.remove_by_id(10);
    assert_eq!(info.states_on_entity, vec![12, 11]);
    info.remove_by_id(99);
    assert_eq!(info.states_on_entity, vec![12, 11]);
}
