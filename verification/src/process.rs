use vstd::prelude::*;
use crate::kernel::KernelA;
use crate::kernel::ipc::InterProcessCommunicationA;

verus! {

/// A process of one of the known kinds.
pub enum Process {
    TestProcessA(TestProcessA),
    TestProcessB(TestProcessA),
}

impl Process {
    /// The process id stored in the process.
    pub open spec fn stored_pid(&self) -> u32 {
        match self {
            Process::TestProcessA(p) => p.stored_pid(),
            Process::TestProcessB(p) => p.stored_pid(),
        }
    }

    /// The process id that `get_pid` reports.
    pub open spec fn reported_pid(&self) -> u32 {
        match self {
            Process::TestProcessA(p) => p.reported_pid(),
            Process::TestProcessB(p) => p.reported_pid(),
        }
    }

    /// The process ids of the children of the process: no process kind has any.
    pub open spec fn child_processes(&self) -> Seq<u32> {
        Seq::empty()
    }

    pub fn can_run(&self) -> (r: bool)
        ensures
            r,
    {
        match self {
            Process::TestProcessA(p) => p.can_run(),
            Process::TestProcessB(p) => p.can_run(),
        }
    }

    pub fn get_pid(&self) -> (r: u32)
        ensures
            r == self.reported_pid(),
    {
        match self {
            Process::TestProcessA(p) => p.get_pid(),
            Process::TestProcessB(p) => p.get_pid(),
        }
    }

    pub fn set_pid(&mut self, pid: u32)
        ensures
            final(self).stored_pid() == pid,
            (*old(self) is TestProcessA) == (*final(self) is TestProcessA),
    {
        match self {
            Process::TestProcessA(p) => p.set_pid(pid),
            Process::TestProcessB(p) => p.set_pid(pid),
        }
    }

    pub fn get_prio(&self) -> (r: u8)
        ensures
            r == 0,
    {
        match self {
            Process::TestProcessA(p) => p.get_prio(),
            Process::TestProcessB(p) => p.get_prio(),
        }
    }

    pub fn set_prio(&mut self, prio: u8)
        ensures
            *final(self) == *old(self),
    {
        match self {
            Process::TestProcessA(p) => p.set_prio(prio),
            Process::TestProcessB(p) => p.set_prio(prio),
        }
    }

    pub fn get_ptype(&self) -> (r: u16)
        ensures
            r == 0,
    {
        match self {
            Process::TestProcessA(p) => p.get_ptype(),
            Process::TestProcessB(p) => p.get_ptype(),
        }
    }

    pub fn kill(&mut self)
        ensures
            *final(self) == *old(self),
    {
        match self {
            Process::TestProcessA(p) => p.kill(),
            Process::TestProcessB(p) => p.kill(),
        }
    }

    pub fn get_child_processes(&self) -> (children: Vec<u32>)
        ensures
            children@ == self.child_processes(),
    {
        match self {
            Process::TestProcessA(p) => p.get_child_processes(),
            Process::TestProcessB(p) => p.get_child_processes(),
        }
    }

    pub fn run(&mut self, ipc: &mut InterProcessCommunicationA, kernel: &KernelA, cache: u32) -> (r:
        u16)
        ensures
            r == 0,
            *final(self) == *old(self),
            final(ipc).messages() == old(ipc).messages(),
            final(ipc).channels() == old(ipc).channels(),
    {
        match self {
            Process::TestProcessA(p) => p.run(ipc, kernel, cache),
            Process::TestProcessB(p) => p.run(ipc, kernel, cache),
        }
    }
}

/// A process as the kernel keeps it.
pub struct ProcessContainer {
    pub val: Process,
}

impl ProcessContainer {
    pub fn new() -> (container: ProcessContainer)
        ensures
            container.val is TestProcessA,
            container.val.stored_pid() == 0,
    {
        ProcessContainer { val: Process::TestProcessA(TestProcessA::new()) }
    }
}

/// The current version of the test process.
pub struct TestProcessA {
    pid: u32,
}

impl TestProcessA {
    /// The process id stored by `set_pid`.
    pub closed spec fn stored_pid(&self) -> u32 {
        self.pid
    }

    /// The process id that `get_pid` reports: always 0 for this process kind.
    pub open spec fn reported_pid(&self) -> u32 {
        0
    }

    fn can_run(&self) -> (r: bool)
        ensures
            r,
    {
        true
    }

    fn get_pid(&self) -> (r: u32)
        ensures
            r == self.reported_pid(),
    {
        0
    }

    fn set_pid(&mut self, pid: u32)
        ensures
            final(self).stored_pid() == pid,
    {
        self.pid = pid;
    }

    fn get_prio(&self) -> (r: u8)
        ensures
            r == 0,
    {
        0
    }

    fn set_prio(&mut self, prio: u8)
        ensures
            *final(self) == *old(self),
    {
    }

    fn get_ptype(&self) -> (r: u16)
        ensures
            r == 0,
    {
        0
    }

    fn kill(&self) {
    }

    fn spawn_child_process(&self) {
    }

    fn get_child_processes(&self) -> (children: Vec<u32>)
        ensures
            children@ == Seq::<u32>::empty(),
    {
        Vec::new()
    }

    fn run(&mut self, ipc: &mut InterProcessCommunicationA, kernel: &KernelA, cache: u32) -> (r: u16)
        ensures
            r == 0,
            *final(self) == *old(self),
            final(ipc).messages() == old(ipc).messages(),
            final(ipc).channels() == old(ipc).channels(),
    {
        0
    }

    fn new() -> (p: TestProcessA)
        ensures
            p.stored_pid() == 0,
    {
        TestProcessA { pid: 0 }
    }
}

} // verus!
