use vstd::prelude::*;

verus! {

/// The persistent memory, in one of its layouts.
pub enum Memory {
    A(MemoryA),
    B(MemoryB),
}

/// The current memory layout. The performance log that the memory also carries
/// holds floating-point timings and is kept beside it by the host program.
pub struct MemoryA {
    pub test: u32,
    pub test2: u32,
}

impl MemoryA {
    /// A fresh memory, as after a cold boot.
    pub fn new() -> (m: MemoryA)
        ensures
            m.test == 0,
            m.test2 == 0,
    {
        MemoryA { test: 0, test2: 0 }
    }
}

/// The previous memory layout, migrated to `MemoryA` on load.
pub struct MemoryB {
    pub test: u8,
    pub test2: u16,
}

impl MemoryB {
    pub fn new() -> (m: MemoryB)
        ensures
            m.test == 0,
            m.test2 == 0,
    {
        MemoryB { test: 0, test2: 0 }
    }
}

/// Memory generated on a cold boot.
pub fn new_memory_as_enum() -> (m: Memory)
    ensures
        m matches Memory::A(a) && a.test == 0 && a.test2 == 0,
{
    Memory::A(MemoryA::new())
}

/// The current-layout memory inside `borrow`, which must be of the current layout.
pub fn get_memory(borrow: &Memory) -> (m: &MemoryA)
    requires
        *borrow is A,
    ensures
        *m == borrow->A_0,
{
    match borrow {
        Memory::A(a) => a,
        Memory::B(_) => vstd::pervasive::unreached(),
    }
}

/// Brings loaded memory to the current layout: current-layout memory is kept as it
/// is, and memory of the previous layout has its fields widened.
pub fn upgrade_memory(memory: Memory) -> (m: MemoryA)
    ensures
        memory matches Memory::A(a) ==> m == a,
        memory matches Memory::B(b) ==> m.test == b.test as u32 && m.test2 == b.test2 as u32,
{
    match memory {
        Memory::A(a) => a,
        Memory::B(old_memory) => {
            let old_test = old_memory.test;
            let new_test = old_test as u32;
            let new_test2 = old_memory.test2 as u32;
            MemoryA { test: new_test, test2: new_test2 }
        },
    }
}

} // verus!
