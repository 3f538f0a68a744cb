use screeps_os::memory::{get_memory, new_memory_as_enum, upgrade_memory, Memory, MemoryA, MemoryB};

#[test]
fn cold_boot_memory_is_current_and_zero() {
    let m = new_memory_as_enum();
    let a = get_memory(&m);
    assert_eq!(a.test, 0);
    assert_eq!(a.test2, 0);
}

#[test]
fn previous_layout_is_widened_on_upgrade() {
    let mut b = MemoryB::new();
    b.test = 200;
    b.test2 = 60000;
    let a = upgrade_memory(Memory::B(b));
    assert_eq!(a.test, 200);
    assert_eq!(a.test2, 60000);
}

#[test]
fn current_layout_is_kept_on_upgrade() {
    let mut a = MemoryA::new();
    a.test = 7;
    a.test2 = 8;
    let kept = upgrade_memory(Memory::A(a));
    assert_eq!(kept.test, 7);
    assert_eq!(kept.test2, 8);
}
