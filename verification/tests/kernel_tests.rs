use screeps_os::kernel::{cpu_limit_tier, CpuLimitTier, KernelA, KernelB};
use screeps_os::process::ProcessContainer;

#[test]
fn process_ids_are_handed_out_in_order() {
    let mut k = KernelA::new();
    assert_eq!(k.add_process(ProcessContainer::new()), 1);
    assert_eq!(k.add_process(ProcessContainer::new()), 2);
    assert_eq!(k.add_process(ProcessContainer::new()), 3);
}

#[test]
fn end_of_tick_handles_queues() {
    let mut k = KernelA::new();
    k.init();
    k.pretick();
    k.run_kernel();
    k.add_process(ProcessContainer::new());
    k.kill_process(0);
    k.kill_process(42);
    k.posttick();
    k.posttick();
    assert_eq!(k.add_process(ProcessContainer::new()), 2);
    let _b = KernelB::new();
}

#[test]
fn cpu_limit_tiers() {
    assert!(matches!(cpu_limit_tier(10000), CpuLimitTier::BucketFull));
    assert!(matches!(cpu_limit_tier(9501), CpuLimitTier::BucketFull));
    assert!(matches!(cpu_limit_tier(9500), CpuLimitTier::Normal));
    assert!(matches!(cpu_limit_tier(1000), CpuLimitTier::Normal));
    assert!(matches!(cpu_limit_tier(999), CpuLimitTier::BucketLow));
    assert!(matches!(cpu_limit_tier(0), CpuLimitTier::BucketLow));
}
