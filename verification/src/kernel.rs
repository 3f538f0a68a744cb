use vstd::prelude::*;
use std::collections::HashMap;
use std::collections::HashSet;
use crate::kernel::ipc::{InterProcessCommunication, new_ipc_as_enum, get_mut_ipc};
use crate::process::ProcessContainer;
use crate::scheduler::{Scheduler, new_scheduler_as_enum, get_mut_scheduler};

pub mod ipc;

verus! {

broadcast use vstd::std_specs::hash::group_hash_axioms;

/// The kernel, in one of its layouts.
pub enum Kernel {
    A(KernelA),
    B(KernelB),
}

/// The current kernel: the process table, the scheduler, the message queues, the
/// next process id to hand out, and the processes waiting to be added or killed at
/// the end of the tick.
pub struct KernelA {
    tick: u32,
    scheduler: Scheduler,
    ran_pids: HashSet<u32>,
    processes: HashMap<u32, ProcessContainer>,
    ipc: InterProcessCommunication,
    pid: u32,
    add_queue: Vec<ProcessContainer>,
    del_queue: Vec<u32>,
}

/// The process table after the queued processes are added: the queue is taken
/// from its end, and each process is stored under the id it reports.
pub open spec fn insert_queued(
    procs: Map<u32, ProcessContainer>,
    queue: Seq<ProcessContainer>,
) -> Map<u32, ProcessContainer>
    decreases queue.len(),
{
    if queue.len() == 0 {
        procs
    } else {
        insert_queued(
            procs.insert(queue.last().val.reported_pid(), queue.last()),
            queue.drop_last(),
        )
    }
}

/// The process ids that the processes of `queue` report.
pub open spec fn queued_pids(queue: Seq<ProcessContainer>) -> Set<u32> {
    Set::new(|k: u32| exists|i: int| 0 <= i < queue.len() && queue[i].val.reported_pid() == k)
}

/// `queue[i]` is the first process of `queue` that reports its id.
pub open spec fn first_with_its_pid(queue: Seq<ProcessContainer>, i: int) -> bool {
    &&& 0 <= i < queue.len()
    &&& forall|j: int| 0 <= j < i ==> queue[j].val.reported_pid() != queue[i].val.reported_pid()
}

/// Adding queued processes: the table then holds the ids it held and every id that
/// a queued process reports; under each such id stands the first queued process
/// that reports it, and every other id keeps its process.
pub proof fn lemma_insert_queued(procs: Map<u32, ProcessContainer>, queue: Seq<ProcessContainer>)
    ensures
        insert_queued(procs, queue).dom() == procs.dom().union(queued_pids(queue)),
        forall|i: int|
            #[trigger] first_with_its_pid(queue, i) ==> insert_queued(procs, queue)[queue[i].val.reported_pid()]
                == queue[i],
        forall|k: u32|
            procs.contains_key(k) && !queued_pids(queue).contains(k) ==> #[trigger] insert_queued(
                procs,
                queue,
            )[k] == procs[k],
    decreases queue.len(),
{
    if queue.len() == 0 {
        assert(queued_pids(queue) =~= Set::<u32>::empty());
        assert(procs.dom().union(queued_pids(queue)) =~= procs.dom());
    } else {
        let n = queue.len();
        let last = queue.last();
        let rest = queue.drop_last();
        let procs2 = procs.insert(last.val.reported_pid(), last);
        lemma_insert_queued(procs2, rest);
        assert forall|k: u32| queued_pids(queue).contains(k) <==> (queued_pids(rest).contains(k)
            || k == last.val.reported_pid()) by {
            if queued_pids(queue).contains(k) {
                let i = choose|i: int| 0 <= i < queue.len() && queue[i].val.reported_pid() == k;
                if i < n - 1 {
                    assert(rest[i] == queue[i]);
                }
            }
            if queued_pids(rest).contains(k) {
                let i = choose|i: int| 0 <= i < rest.len() && rest[i].val.reported_pid() == k;
                assert(queue[i] == rest[i]);
            }
            if k == last.val.reported_pid() {
                assert(queue[n - 1] == last);
            }
        }
        assert(insert_queued(procs, queue) == insert_queued(procs2, rest));
        assert(insert_queued(procs, queue).dom() =~= procs.dom().union(queued_pids(queue)));
        assert forall|i: int| #[trigger] first_with_its_pid(queue, i) implies insert_queued(
            procs,
            queue,
        )[queue[i].val.reported_pid()] == queue[i] by {
            if i < n - 1 {
                assert(rest[i] == queue[i]);
                assert forall|j: int| 0 <= j < i implies rest[j].val.reported_pid()
                    != rest[i].val.reported_pid() by {
                    assert(rest[j] == queue[j]);
                }
                assert(first_with_its_pid(rest, i));
            } else {
                assert(queue[i] == last);
                if queued_pids(rest).contains(last.val.reported_pid()) {
                    let j = choose|j: int|
                        0 <= j < rest.len() && rest[j].val.reported_pid() == last.val.reported_pid();
                    assert(queue[j] == rest[j]);
                }
            }
        }
        assert forall|k: u32|
            procs.contains_key(k) && !queued_pids(queue).contains(k) implies #[trigger] insert_queued(
            procs,
            queue,
        )[k] == procs[k] by {
            assert(procs2.contains_key(k) && !queued_pids(rest).contains(k));
        }
    }
}

impl KernelA {
    /// The process table, by process id.
    pub closed spec fn processes(&self) -> Map<u32, ProcessContainer> {
        self.processes@
    }

    /// Processes waiting to be added at the end of the tick.
    pub closed spec fn add_queue(&self) -> Seq<ProcessContainer> {
        self.add_queue@
    }

    /// Process ids waiting to be killed at the end of the tick.
    pub closed spec fn del_queue(&self) -> Seq<u32> {
        self.del_queue@
    }

    /// The process id that the next added process receives.
    pub closed spec fn next_pid(&self) -> u32 {
        self.pid
    }

    /// The current tick.
    pub closed spec fn tick(&self) -> u32 {
        self.tick
    }

    /// The process ids that ran in this tick.
    pub closed spec fn ran_pids(&self) -> Set<u32> {
        self.ran_pids@
    }

    /// The scheduler.
    pub closed spec fn scheduler(&self) -> Scheduler {
        self.scheduler
    }

    /// The message queues.
    pub closed spec fn ipc(&self) -> InterProcessCommunication {
        self.ipc
    }

    /// The scheduler and the message queues are of the current layout, and the next
    /// process id is not 0.
    pub open spec fn wf(&self) -> bool {
        &&& self.scheduler() is A
        &&& self.ipc() is A
        &&& self.next_pid() >= 1
    }

    pub fn new() -> (kernel: KernelA)
        ensures
            kernel.wf(),
            kernel.tick() == 0,
            kernel.next_pid() == 1,
            kernel.processes() == Map::<u32, ProcessContainer>::empty(),
            kernel.add_queue() == Seq::<ProcessContainer>::empty(),
            kernel.del_queue() == Seq::<u32>::empty(),
            kernel.ran_pids() == Set::<u32>::empty(),
            kernel.scheduler()->A_0.prio() == Map::<u32, u8>::empty(),
            kernel.scheduler()->A_0.pqueue() == Seq::<u32>::empty(),
            kernel.ipc()->A_0.messages() == Map::<u32, Seq<ipc::Message>>::empty(),
            kernel.ipc()->A_0.channels() == Map::<u32, Seq<ipc::Message>>::empty(),
    {
        let kernel = KernelA {
            tick: 0,
            scheduler: new_scheduler_as_enum(),
            ran_pids: HashSet::new(),
            processes: HashMap::new(),
            ipc: new_ipc_as_enum(),
            pid: 1,
            add_queue: Vec::new(),
            del_queue: Vec::new(),
        };
        kernel
    }

    /// What runs after a reset; this layout has nothing to restore.
    pub fn init(&self) {
    }

    /// Runs one tick; the steps are not yet written.
    pub fn run_kernel(&self) {
    }

    /// Prepares the tick; the steps are not yet written.
    pub fn pretick(&self) {
    }

    /// Ends the tick: adds the queued processes to the process table and the
    /// scheduler, then kills the queued process ids, together with their children,
    /// removing them from the table and dropping their message queues.
    pub fn posttick(&mut self)
        requires
            old(self).wf(),
        ensures
            final(self).wf(),
            final(self).add_queue() == Seq::<ProcessContainer>::empty(),
            final(self).del_queue() == Seq::<u32>::empty(),
            final(self).processes() == insert_queued(
                old(self).processes(),
                old(self).add_queue(),
            ).remove_keys(old(self).del_queue().to_set()),
            final(self).processes().dom() == old(self).processes().dom().union(
                queued_pids(old(self).add_queue()),
            ).difference(old(self).del_queue().to_set()),
            forall|i: int|
                #[trigger] first_with_its_pid(old(self).add_queue(), i) && !old(self).del_queue().contains(old(self).add_queue()[i].val.reported_pid()) ==> final(self).processes()[old(self).add_queue()[i].val.reported_pid()] == old(self).add_queue()[i],
            forall|k: u32|
                old(self).processes().contains_key(k) && !queued_pids(old(self).add_queue()).contains(
                    k,
                ) && !old(self).del_queue().contains(k) ==> #[trigger] final(self).processes()[k]
                    == old(self).processes()[k],
            final(self).ipc()->A_0.messages() == old(self).ipc()->A_0.messages().remove_keys(
                old(self).del_queue().to_set().intersect(
                    insert_queued(old(self).processes(), old(self).add_queue()).dom(),
                ),
            ),
            final(self).ipc()->A_0.channels() == old(self).ipc()->A_0.channels(),
            final(self).scheduler()->A_0.prio() == old(self).scheduler()->A_0.prio(),
            final(self).scheduler()->A_0.pqueue() == old(self).scheduler()->A_0.pqueue(),
            final(self).next_pid() == old(self).next_pid(),
            final(self).tick() == old(self).tick(),
            final(self).ran_pids() == old(self).ran_pids(),
    {
        let scheduler = get_mut_scheduler(&mut self.scheduler);
        let processes = &mut self.processes;
        let add_queue = &mut self.add_queue;
        let del_queue = &mut self.del_queue;
        let ipc = get_mut_ipc(&mut self.ipc);
        let ghost old_procs = processes@;
        let ghost old_add = add_queue@;
        let ghost old_sched_prio = scheduler.prio();
        let ghost old_sched_queue = scheduler.pqueue();
        while !add_queue.is_empty()
            invariant
                insert_queued(processes@, add_queue@) == insert_queued(old_procs, old_add),
                scheduler.prio() == old_sched_prio,
                scheduler.pqueue() == old_sched_queue,
            decreases add_queue@.len(),
        {
            let p = add_queue.pop();
            if let Some(p) = p {
                scheduler.spawn_process(&p);
                let pid = p.val.get_pid();
                processes.insert(pid, p);
            }
        }
        let ghost added = processes@;
        let ghost dels = del_queue@;
        let ghost old_messages = ipc.messages();
        let ghost old_channels = ipc.channels();
        assert(added == insert_queued(old_procs, old_add));
        while !del_queue.is_empty()
            invariant
                del_queue@.len() <= dels.len(),
                del_queue@ == dels.subrange(0, del_queue@.len() as int),
                processes@ == added.remove_keys(dels.subrange(del_queue@.len() as int, dels.len() as int).to_set()),
                ipc.messages() == old_messages.remove_keys(
                    dels.subrange(del_queue@.len() as int, dels.len() as int).to_set().intersect(added.dom()),
                ),
                ipc.channels() == old_channels,
                scheduler.prio() == old_sched_prio,
                scheduler.pqueue() == old_sched_queue,
            decreases del_queue@.len(),
        {
            let ghost before_len = del_queue@.len();
            let pid = del_queue.pop();
            if let Some(pid) = pid {
                scheduler.kill_process(pid);
                if let Some(p) = processes.remove(&pid) {
                    let mut p = p;
                    let children = p.val.get_child_processes();
                    let mut ci: usize = 0;
                    let ghost dq_before = del_queue@;
                    while ci < children.len()
                        invariant
                            ci <= children@.len(),
                            del_queue@ == dq_before + children@.subrange(0, ci as int),
                        decreases children@.len() - ci,
                    {
                        del_queue.push(children[ci]);
                        ci += 1;
                        proof {
                            assert(children@.subrange(0, ci as int) =~= children@.subrange(
                                0,
                                ci - 1,
                            ).push(children@[ci - 1]));
                        }
                    }
                    assert(children@ == p.val.child_processes());
                    assert(del_queue@ =~= dq_before);
                    p.val.kill();
                    ipc.rm_pid(pid);
                }
                proof {
                    let done = dels.subrange(del_queue@.len() as int, dels.len() as int);
                    let done_before = dels.subrange(before_len as int, dels.len() as int);
                    assert(del_queue@.len() == before_len - 1);
                    assert(pid == dels[before_len - 1]);
                    assert(done =~= seq![pid] + done_before);
                    assert forall|x: u32| done.contains(x) <==> (x == pid || done_before.contains(x)) by {
                        if done.contains(x) {
                            let j = choose|j: int| 0 <= j < done.len() && done[j] == x;
                            if j > 0 {
                                assert(done_before[j - 1] == x);
                            }
                        }
                        if done_before.contains(x) {
                            let j = choose|j: int| 0 <= j < done_before.len() && done_before[j] == x;
                            assert(done[j + 1] == x);
                        }
                        if x == pid {
                            assert(done[0] == x);
                        }
                    }
                    assert(done.to_set() =~= done_before.to_set().insert(pid));
                    assert(processes@ =~= added.remove_keys(done.to_set()));
                    assert(ipc.messages() =~= old_messages.remove_keys(done.to_set().intersect(added.dom())));
                }
            }
        }
        proof {
            assert(dels.subrange(0, dels.len() as int) =~= dels);
            lemma_insert_queued(old_procs, old_add);
            assert(processes@.dom() =~= old_procs.dom().union(queued_pids(old_add)).difference(
                dels.to_set(),
            ));
        }
    }

    /// Queues `process` for addition, gives it the next process id and returns that id.
    pub fn add_process(&mut self, process: ProcessContainer) -> (pid: u32)
        requires
            old(self).next_pid() < u32::MAX,
        ensures
            pid == old(self).next_pid(),
            final(self).next_pid() == old(self).next_pid() + 1,
            final(self).add_queue().len() == old(self).add_queue().len() + 1,
            final(self).add_queue().drop_last() == old(self).add_queue(),
            final(self).add_queue().last().val.stored_pid() == pid,
            (final(self).add_queue().last().val is TestProcessA) == (process.val is TestProcessA),
            final(self).processes() == old(self).processes(),
            final(self).del_queue() == old(self).del_queue(),
            final(self).tick() == old(self).tick(),
            final(self).ran_pids() == old(self).ran_pids(),
            final(self).scheduler() == old(self).scheduler(),
            final(self).ipc() == old(self).ipc(),
            old(self).wf() ==> pid >= 1 && final(self).wf(),
    {
        let mut process = process;
        let pid_save = self.pid;
        self.pid = self.pid + 1;
        process.val.set_pid(pid_save);
        self.add_queue.push(process);
        proof {
            assert(self.add_queue@.drop_last() =~= old(self).add_queue@);
        }
        pid_save
    }

    /// Queues process `pid` for killing at the end of the tick.
    pub fn kill_process(&mut self, pid: u32)
        ensures
            final(self).del_queue() == old(self).del_queue().push(pid),
            final(self).add_queue() == old(self).add_queue(),
            final(self).processes() == old(self).processes(),
            final(self).next_pid() == old(self).next_pid(),
            final(self).tick() == old(self).tick(),
            final(self).ran_pids() == old(self).ran_pids(),
            final(self).scheduler() == old(self).scheduler(),
            final(self).ipc() == old(self).ipc(),
            final(self).wf() == old(self).wf(),
    {
        self.del_queue.push(pid);
    }
}

/// `screeps::CPU_BUCKET_MAX` of screeps-game-api: the most CPU time the bucket
/// can hold, which its source defines as 10 000.
#[verifier::external_body]
fn cpu_bucket_max() -> (r: u32)
    ensures
        r == 10000,
{
    screeps::CPU_BUCKET_MAX
}

/// How much CPU a tick may use, chosen by how full the bucket is.
pub enum CpuLimitTier {
    /// The bucket is above 95% of its capacity.
    BucketFull,
    /// The bucket is below 10% of its capacity.
    BucketLow,
    /// The bucket is below the minimum share of its capacity.
    BucketCritical,
    /// Anything else.
    Normal,
}

/// The CPU limit tier for a bucket holding `bucket`: above 95% of the capacity
/// (9500) the bucket is full, below 10% (1000) it is low. The critical threshold is
/// also 10%, so the low tier shadows it and it is never chosen.
pub fn cpu_limit_tier(bucket: u32) -> (tier: CpuLimitTier)
    ensures
        bucket > 9500 ==> tier is BucketFull,
        bucket < 1000 ==> tier is BucketLow,
        1000 <= bucket <= 9500 ==> tier is Normal,
{
    let max = cpu_bucket_max();
    let bucket_max = max - max / 20;
    let bucket_ok = max / 10;
    let bucket_min = max / 10;
    if bucket > bucket_max {
        return CpuLimitTier::BucketFull;
    }
    if bucket < bucket_ok {
        return CpuLimitTier::BucketLow;
    }
    if bucket < bucket_min {
        return CpuLimitTier::BucketCritical;
    }
    CpuLimitTier::Normal
}

/// An earlier kernel layout, kept for migration.
pub struct KernelB {}

impl KernelB {
    pub fn new() -> (kernel: KernelB) {
        KernelB {  }
    }
}

} // verus!
