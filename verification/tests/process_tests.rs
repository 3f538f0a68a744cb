use screeps_os::kernel::ipc::InterProcessCommunicationA;
use screeps_os::kernel::KernelA;
use screeps_os::process::{Process, ProcessContainer};

#[test]
fn test_process_reports_fixed_values() {
    let mut c = ProcessContainer::new();
    assert!(c.val.can_run());
    c.val.set_pid(17);
    assert_eq!(c.val.get_pid(), 0);
    c.val.set_prio(9);
    assert_eq!(c.val.get_prio(), 0);
    assert_eq!(c.val.get_ptype(), 0);
    assert!(c.val.get_child_processes().is_empty());
    c.val.kill();
    assert!(matches!(c.val, Process::TestProcessA(_)));
}

#[test]
fn running_the_test_process_returns_zero() {
    let mut c = ProcessContainer::new();
    let mut ipc = InterProcessCommunicationA::new();
    let kernel = KernelA::new();
    assert_eq!(c.val.run(&mut ipc, &kernel, 0), 0);
    assert!(ipc.get_messages_pid(0).is_none());
}
