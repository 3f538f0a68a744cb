use screeps_os::process::ProcessContainer;
use screeps_os::scheduler::{get_mut_scheduler, get_scheduler, new_scheduler_as_enum, SchedulerA, SchedulerB};
use std::collections::HashSet;

#[test]
fn empty_run_queue_yields_zero() {
    let mut s = SchedulerA::new();
    assert_eq!(s.run_next_process(), 0);
    s.pretick();
    assert_eq!(s.run_next_process(), 0);
}

#[test]
fn tick_cycle_on_empty_scheduler() {
    let mut s = SchedulerA::new();
    s.pretick();
    let mut ran = HashSet::new();
    ran.insert(3u32);
    s.posttick(&mut ran);
    assert!(ran.contains(&3));
    assert_eq!(ran.len(), 1);
    assert_eq!(s.run_next_process(), 0);
}

#[test]
fn spawn_and_kill_keep_scheduler_usable() {
    let mut s = SchedulerA::new();
    s.spawn_process(&ProcessContainer::new());
    s.kill_process(1);
    s.pretick();
    assert_eq!(s.run_next_process(), 0);
}

#[test]
fn scheduler_enum_accessors() {
    let mut e = new_scheduler_as_enum();
    let _ = get_scheduler(&e);
    let s = get_mut_scheduler(&mut e);
    assert_eq!(s.run_next_process(), 0);
    let _b = SchedulerB::new();
}
