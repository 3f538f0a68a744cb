use vstd::prelude::*;
use std::collections::HashMap;
use std::collections::HashSet;
use crate::process::ProcessContainer;
use vstd::std_specs::iter::IteratorSpec;

verus! {

broadcast use vstd::std_specs::hash::group_hash_axioms;

/// The process scheduler, in one of its layouts.
pub enum Scheduler {
    A(SchedulerA),
    B(SchedulerB),
}

/// The current scheduler: a priority for each process id, and the queue of
/// processes still to run in this tick.
pub struct SchedulerA {
    prio: HashMap<u32, u8>,
    pqueue: Vec<u32>,
}

/// `q` holds every process id of `prio` exactly once, in order of non-decreasing
/// priority.
pub open spec fn ordered_by_priority(q: Seq<u32>, prio: Map<u32, u8>) -> bool {
    &&& q.no_duplicates()
    &&& forall|i: int| 0 <= i < q.len() ==> prio.contains_key(#[trigger] q[i])
    &&& forall|k: u32| prio.contains_key(k) ==> q.contains(k)
    &&& forall|i: int, j: int| 0 <= i <= j < q.len() ==> prio[q[i]] <= prio[q[j]]
}

/// The priorities after a tick: every process that did not run and sits below 127
/// moves up by one; the others keep their priority.
pub open spec fn aged(prio: Map<u32, u8>, ran: Set<u32>) -> Map<u32, u8> {
    Map::new(
        |k: u32| prio.contains_key(k),
        |k: u32|
            if !ran.contains(k) && prio[k] < 127 {
                (prio[k] + 1) as u8
            } else {
                prio[k]
            },
    )
}

/// The priorities of the processes whose priority is below `n`.
pub open spec fn below_priority(m: Map<u32, u8>, n: int) -> Map<u32, u8> {
    m.restrict(Set::new(|k: u32| m.contains_key(k) && m[k] < n))
}

proof fn lemma_append_bucket(q: Seq<u32>, b: Seq<u32>, m: Map<u32, u8>, i: int)
    requires
        ordered_by_priority(q, below_priority(m, i)),
        b.no_duplicates(),
        forall|j: int| 0 <= j < b.len() ==> m.contains_key(#[trigger] b[j]) && m[b[j]] == i,
        forall|k: u32| m.contains_key(k) && m[k] == i ==> b.contains(k),
    ensures
        ordered_by_priority(q + b, below_priority(m, i + 1)),
{
    let r = q + b;
    let mi = below_priority(m, i);
    let mi1 = below_priority(m, i + 1);
    assert forall|j: int| 0 <= j < r.len() implies mi1.contains_key(#[trigger] r[j]) && mi1[r[j]]
        == m[r[j]] by {
        if j < q.len() {
            assert(mi.contains_key(q[j]));
        } else {
            assert(r[j] == b[j - q.len()]);
        }
    }
    assert forall|k: u32| mi1.contains_key(k) implies r.contains(k) by {
        if m[k] < i {
            assert(mi.contains_key(k));
            assert(q.contains(k));
            let j = choose|j: int| 0 <= j < q.len() && q[j] == k;
            assert(r[j] == k);
        } else {
            let j = choose|j: int| 0 <= j < b.len() && b[j] == k;
            assert(r[q.len() + j] == k);
        }
    }
    assert forall|x: int, y: int| 0 <= x <= y < r.len() implies mi1[r[x]] <= mi1[r[y]] by {
        if y < q.len() {
            assert(mi.contains_key(q[x]) && mi.contains_key(q[y]));
        } else if x < q.len() {
            assert(mi.contains_key(q[x]));
            assert(r[y] == b[y - q.len()]);
        } else {
            assert(r[x] == b[x - q.len()]);
            assert(r[y] == b[y - q.len()]);
        }
    }
    assert forall|x: int, y: int| 0 <= x < r.len() && 0 <= y < r.len() && x != y implies r[x]
        != r[y] by {
        if x < q.len() && y < q.len() {
        } else if x >= q.len() && y >= q.len() {
            assert(r[x] == b[x - q.len()]);
            assert(r[y] == b[y - q.len()]);
        } else if x < q.len() {
            assert(mi.contains_key(q[x]));
            assert(r[y] == b[y - q.len()]);
        } else {
            assert(mi.contains_key(q[y]));
            assert(r[x] == b[x - q.len()]);
        }
    }
}

proof fn lemma_iter_keys_distinct(seq: Seq<(&u32, &u8)>, m: Map<u32, u8>)
    requires
        seq.no_duplicates(),
        forall|j: int| 0 <= j < seq.len() ==> m.contains_key(*(#[trigger] seq[j]).0) && m[*seq[j].0] == *seq[j].1,
    ensures
        forall|j1: int, j2: int|
            0 <= j1 < seq.len() && 0 <= j2 < seq.len() && j1 != j2 ==> *(#[trigger] seq[j1]).0 != *(
            #[trigger] seq[j2]).0,
{
    assert forall|j1: int, j2: int|
        0 <= j1 < seq.len() && 0 <= j2 < seq.len() && j1 != j2 implies *(#[trigger] seq[j1]).0 != *(
        #[trigger] seq[j2]).0 by {
        if *seq[j1].0 == *seq[j2].0 {
            assert(*seq[j1].1 == *seq[j2].1);
            assert(seq[j1] == seq[j2]);
        }
    }
}

impl SchedulerA {
    /// Priority of each known process id.
    pub closed spec fn prio(&self) -> Map<u32, u8> {
        self.prio@
    }

    /// The run queue; the next process to run is the last one.
    pub closed spec fn pqueue(&self) -> Seq<u32> {
        self.pqueue@
    }

    pub fn new() -> (s: SchedulerA)
        ensures
            s.prio() == Map::<u32, u8>::empty(),
            s.pqueue() == Seq::<u32>::empty(),
    {
        SchedulerA { prio: HashMap::new(), pqueue: Vec::new() }
    }

    /// Appends to the run queue every process id, in order of non-decreasing
    /// priority, so that the highest priority runs first.
    pub fn pretick(&mut self)
        ensures
            final(self).prio() == old(self).prio(),
            final(self).pqueue().len() >= old(self).pqueue().len(),
            final(self).pqueue().subrange(0, old(self).pqueue().len() as int) == old(self).pqueue(),
            ordered_by_priority(
                final(self).pqueue().subrange(
                    old(self).pqueue().len() as int,
                    final(self).pqueue().len() as int,
                ),
                old(self).prio(),
            ),
    {
        let ghost m = self.prio@;
        let mut pqueue_gen: Vec<Vec<u32>> = Vec::new();
        pqueue_gen.reserve(256);
        let mut i: usize = 0;
        while i < 256
            invariant
                i <= 256,
                pqueue_gen@.len() == i,
                forall|p: int| 0 <= p < i ==> (#[trigger] pqueue_gen@[p])@.len() == 0,
            decreases 256 - i,
        {
            pqueue_gen.push(Vec::new());
            i += 1;
        }
        for item in it: self.prio.iter()
            invariant
                m == self.prio@,
                it.seq() == vstd::std_specs::hash::spec_hash_map_iter(&self.prio).remaining(),
                it.seq().no_duplicates(),
                forall|j: int|
                    0 <= j < it.seq().len() ==> m.contains_key(*(#[trigger] it.seq()[j]).0)
                        && m[*it.seq()[j].0] == *it.seq()[j].1,
                pqueue_gen@.len() == 256,
                forall|p: int, i: int|
                    0 <= p < 256 && 0 <= i < pqueue_gen@[p]@.len() ==> {
                        &&& m.contains_key(#[trigger] pqueue_gen@[p]@[i])
                        &&& m[pqueue_gen@[p]@[i]] == p
                        &&& exists|j: int|
                            0 <= j < it.index() && *(#[trigger] it.seq()[j]).0 == pqueue_gen@[p]@[i]
                    },
                forall|j: int|
                    0 <= j < it.index() ==> (#[trigger] pqueue_gen@[*it.seq()[j].1 as int]@).contains(
                        *it.seq()[j].0,
                    ),
                forall|p: int| 0 <= p < 256 ==> (#[trigger] pqueue_gen@[p]@).no_duplicates(),
        {
            let (k, v) = item;
            let ghost idx = it.index();
            let ghost seq = it.seq();
            let ghost prev = pqueue_gen@;
            let ghost pv = *v as int;
            proof {
                lemma_iter_keys_distinct(seq, m);
            }
            pqueue_gen[*v as usize].push(*k);
            proof {
                assert(pqueue_gen@[pv]@ == prev[pv]@.push(*k));
                assert forall|p: int| 0 <= p < 256 && p != pv implies pqueue_gen@[p] == prev[p] by {}
                assert(!prev[pv]@.contains(*k)) by {
                    if prev[pv]@.contains(*k) {
                        let i = choose|i: int| 0 <= i < prev[pv]@.len() && prev[pv]@[i] == *k;
                        let j = choose|j: int| 0 <= j < idx && *seq[j].0 == prev[pv]@[i];
                        assert(*seq[j].0 == *seq[idx].0);
                    }
                }
                assert forall|p: int, i: int|
                    0 <= p < 256 && 0 <= i < pqueue_gen@[p]@.len() implies {
                        &&& m.contains_key(#[trigger] pqueue_gen@[p]@[i])
                        &&& m[pqueue_gen@[p]@[i]] == p
                        &&& exists|j: int|
                            0 <= j < idx + 1 && *(#[trigger] seq[j]).0 == pqueue_gen@[p]@[i]
                    } by {
                    if p == pv && i == prev[pv]@.len() {
                        assert(*seq[idx].0 == pqueue_gen@[p]@[i]);
                    } else {
                        assert(pqueue_gen@[p]@[i] == prev[p]@[i]);
                    }
                }
                assert forall|j: int| 0 <= j < idx + 1 implies (#[trigger] pqueue_gen@[*seq[j].1 as int]@).contains(
                    *seq[j].0,
                ) by {
                    if j == idx {
                        assert(pqueue_gen@[pv]@[prev[pv]@.len() as int] == *k);
                    } else {
                        let q = *seq[j].1 as int;
                        assert(prev[q]@.contains(*seq[j].0));
                        let i = choose|i: int| 0 <= i < prev[q]@.len() && prev[q]@[i] == *seq[j].0;
                        assert(pqueue_gen@[q]@[i] == *seq[j].0);
                    }
                }
                assert forall|p: int| 0 <= p < 256 implies (#[trigger] pqueue_gen@[p]@).no_duplicates() by {
                    if p == pv {
                        assert(prev[pv]@.no_duplicates());
                    }
                }
            }
        }
        let ghost seq = vstd::std_specs::hash::spec_hash_map_iter(&self.prio).remaining();
        let ghost old_pqueue = self.pqueue@;
        let mut i: usize = 0;
        while i < 256
            invariant
                m == self.prio@,
                pqueue_gen@.len() == 256,
                i <= 256,
                self.pqueue@.len() >= old_pqueue.len(),
                self.pqueue@.subrange(0, old_pqueue.len() as int) == old_pqueue,
                forall|p: int, j: int|
                    i <= p < 256 && 0 <= j < pqueue_gen@[p]@.len() ==> {
                        &&& m.contains_key(#[trigger] pqueue_gen@[p]@[j])
                        &&& m[pqueue_gen@[p]@[j]] == p
                    },
                forall|p: int| i <= p < 256 ==> (#[trigger] pqueue_gen@[p]@).no_duplicates(),
                forall|k: u32| m.contains_key(k) && m[k] >= i ==> (#[trigger] pqueue_gen@[m[k] as int]@).contains(k),
                ordered_by_priority(
                    self.pqueue@.subrange(old_pqueue.len() as int, self.pqueue@.len() as int),
                    below_priority(m, i as int),
                ),
            decreases 256 - i,
        {
            let ghost q = self.pqueue@.subrange(old_pqueue.len() as int, self.pqueue@.len() as int);
            let ghost b = pqueue_gen@[i as int]@;
            let ghost prev_gen = pqueue_gen@;
            let ghost prev_pqueue = self.pqueue@;
            self.pqueue.append(&mut pqueue_gen[i]);
            proof {
                lemma_append_bucket(q, b, m, i as int);
                assert(self.pqueue@ == prev_pqueue + b);
                assert(self.pqueue@.subrange(old_pqueue.len() as int, self.pqueue@.len() as int) =~= q
                    + b);
                assert(self.pqueue@.subrange(0, old_pqueue.len() as int) =~= prev_pqueue.subrange(
                    0,
                    old_pqueue.len() as int,
                ));
                assert forall|p: int| i < p < 256 implies pqueue_gen@[p] == prev_gen[p] by {}
            }
            i += 1;
        }
        proof {
            assert(below_priority(m, 256) =~= m);
        }
    }

    /// Pops the next process to run: the last of the queue, or 0 when the queue is
    /// empty.
    pub fn run_next_process(&mut self) -> (pid: u32)
        ensures
            final(self).prio() == old(self).prio(),
            old(self).pqueue().len() == 0 ==> pid == 0 && final(self).pqueue() == old(self).pqueue(),
            old(self).pqueue().len() > 0 ==> pid == old(self).pqueue().last() && final(self).pqueue()
                == old(self).pqueue().drop_last(),
    {
        let process = self.pqueue.pop();
        match process {
            Some(a) => a,
            None => 0,
        }
    }

    /// Ends a tick: empties the run queue and raises by one the priority of every
    /// process that did not run and sits below 127.
    pub fn posttick(&mut self, ran: &mut HashSet<u32>)
        ensures
            final(self).pqueue() == Seq::<u32>::empty(),
            final(self).prio() == aged(old(self).prio(), old(ran)@),
            final(self).prio().dom() == old(self).prio().dom(),
            forall|k: u32|
                #[trigger] old(self).prio().contains_key(k) && !old(ran)@.contains(k) && old(self).prio()[k] < 127 ==> final(self).prio()[k] == old(self).prio()[k] + 1,
            forall|k: u32|
                #[trigger] old(self).prio().contains_key(k) && (old(ran)@.contains(k) || old(self).prio()[k] >= 127) ==> final(self).prio()[k] == old(self).prio()[k],
            final(ran)@ == old(ran)@,
    {
        self.pqueue.clear();
        let ghost m = self.prio@;
        let mut entries: Vec<(u32, u8)> = Vec::new();
        for item in it: self.prio.iter()
            invariant
                m == self.prio@,
                it.seq() == vstd::std_specs::hash::spec_hash_map_iter(&self.prio).remaining(),
                entries@.len() == it.index(),
                self.pqueue@ == Seq::<u32>::empty(),
                forall|j: int|
                    0 <= j < it.index() ==> (#[trigger] entries@[j]).0 == *it.seq()[j].0
                        && entries@[j].1 == *it.seq()[j].1,
        {
            entries.push((*item.0, *item.1));
        }
        let ghost seq = vstd::std_specs::hash::spec_hash_map_iter(&self.prio).remaining();
        proof {
            lemma_iter_keys_distinct(seq, m);
        }
        let ghost target = aged(m, ran@);
        let mut idx: usize = 0;
        while idx < entries.len()
            invariant
                idx <= entries@.len(),
                entries@.len() == seq.len(),
                forall|j: int|
                    0 <= j < entries@.len() ==> (#[trigger] entries@[j]).0 == *seq[j].0
                        && entries@[j].1 == *seq[j].1,
                forall|j: int|
                    0 <= j < seq.len() ==> m.contains_key(*(#[trigger] seq[j]).0) && m[*seq[j].0]
                        == *seq[j].1,
                forall|j1: int, j2: int|
                    0 <= j1 < seq.len() && 0 <= j2 < seq.len() && j1 != j2 ==> *(
                    #[trigger] seq[j1]).0 != *(#[trigger] seq[j2]).0,
                target == aged(m, ran@),
                self.pqueue@ == Seq::<u32>::empty(),
                self.prio@.dom() == m.dom(),
                forall|j: int| 0 <= j < idx ==> self.prio@[#[trigger] entries@[j].0] == target[entries@[j].0],
                forall|j: int|
                    idx <= j < entries@.len() ==> self.prio@[#[trigger] entries@[j].0] == m[entries@[j].0],
            decreases entries@.len() - idx,
        {
            let (k, v) = entries[idx];
            let ghost before = self.prio@;
            if !ran.contains(&k) {
                if v < 127 {
                    self.prio.insert(k, v + 1);
                }
            }
            proof {
                assert(self.prio@.dom() =~= m.dom());
                assert forall|j: int| 0 <= j < entries@.len() && j != idx implies self.prio@[#[trigger] entries@[j].0]
                    == before[entries@[j].0] by {
                    assert(*seq[j].0 != *seq[idx as int].0);
                }
            }
            idx += 1;
        }
        proof {
            assert forall|k: u32| #[trigger] m.contains_key(k) implies self.prio@[k] == target[k] by {
                assert(seq.contains((&k, &m[k])));
                let j = choose|j: int| 0 <= j < seq.len() && seq[j] == (&k, &m[k]);
                assert(entries@[j].0 == k);
            }
            assert(self.prio@ =~= target);
        }
    }

    /// Registers a process with the scheduler; this layout keeps nothing for it.
    pub fn spawn_process(&mut self, process: &ProcessContainer)
        ensures
            final(self).prio() == old(self).prio(),
            final(self).pqueue() == old(self).pqueue(),
    {
    }

    /// Removes a process from the scheduler; this layout keeps nothing for it.
    pub fn kill_process(&self, pid: u32) {
    }
}

/// An earlier scheduler layout, kept for migration.
pub struct SchedulerB {}

impl SchedulerB {
    pub fn new() -> (s: SchedulerB) {
        SchedulerB {  }
    }
}

pub fn new_scheduler_as_enum() -> (s: Scheduler)
    ensures
        s matches Scheduler::A(a) && a.prio() == Map::<u32, u8>::empty() && a.pqueue() == Seq::<
            u32,
        >::empty(),
{
    Scheduler::A(SchedulerA::new())
}

/// Highest priority first: after `pretick` fills an empty run queue, the process
/// that `run_next_process` takes is one of the processes of highest priority.
pub proof fn lemma_pretick_runs_highest_priority_first(q: Seq<u32>, prio: Map<u32, u8>)
    requires
        ordered_by_priority(q, prio),
        q.len() > 0,
    ensures
        prio.contains_key(q.last()),
        forall|k: u32| prio.contains_key(k) ==> prio[k] <= prio[q.last()],
{
    assert forall|k: u32| prio.contains_key(k) implies prio[k] <= prio[q.last()] by {
        assert(q.contains(k));
        let j = choose|j: int| 0 <= j < q.len() && q[j] == k;
        assert(prio[q[j]] <= prio[q[q.len() - 1]]);
    }
}

/// The run queue drains by priority: after `pretick` fills an empty run queue `q`,
/// the `i`-th call of `run_next_process` (counting from 0) takes `q.reverse()[i]`
/// and leaves `q.subrange(0, n - i - 1)`; these `n` calls take every process id
/// exactly once, highest priority first, and the call after them takes none (0).
pub proof fn lemma_run_queue_drains_by_priority(q: Seq<u32>, prio: Map<u32, u8>)
    requires
        ordered_by_priority(q, prio),
    ensures
        q.len() == prio.dom().len(),
        forall|i: int|
            0 <= i < q.len() ==> {
                &&& #[trigger] q.subrange(0, q.len() - i).last() == q.reverse()[i]
                &&& q.subrange(0, q.len() - i).drop_last() == q.subrange(0, q.len() - i - 1)
            },
        q.subrange(0, 0).len() == 0,
        q.reverse().no_duplicates(),
        forall|k: u32| prio.contains_key(k) ==> q.reverse().contains(k),
        forall|i: int, j: int|
            0 <= i <= j < q.len() ==> prio[q.reverse()[i]] >= prio[q.reverse()[j]],
{
    let n = q.len();
    let r = q.reverse();
    assert(q.to_set() =~= prio.dom()) by {
        assert forall|k: u32| q.to_set().contains(k) implies prio.dom().contains(k) by {
            let j = choose|j: int| 0 <= j < n && q[j] == k;
        }
    }
    q.unique_seq_to_set();
    assert forall|i: int| 0 <= i < n implies {
        &&& #[trigger] q.subrange(0, n - i).last() == r[i]
        &&& q.subrange(0, n - i).drop_last() == q.subrange(0, n - i - 1)
    } by {
        assert(q.subrange(0, n - i).drop_last() =~= q.subrange(0, n - i - 1));
    }
    assert forall|x: int, y: int| 0 <= x < n && 0 <= y < n && x != y implies r[x] != r[y] by {
        assert(r[x] == q[n - 1 - x] && r[y] == q[n - 1 - y]);
    }
    assert forall|k: u32| prio.contains_key(k) implies r.contains(k) by {
        assert(q.contains(k));
        let j = choose|j: int| 0 <= j < n && q[j] == k;
        assert(r[n - 1 - j] == k);
    }
    assert forall|i: int, j: int| 0 <= i <= j < n implies prio[r[i]] >= prio[r[j]] by {
        assert(r[i] == q[n - 1 - i] && r[j] == q[n - 1 - j]);
    }
}

/// Aging is strict and bounded: at the end of a tick every process that did not run
/// and sits below 127 moves up by exactly one, never past 127, and the processes
/// that ran or hold a reserved priority (127 and above) keep theirs.
pub proof fn lemma_aging_bounded(prio: Map<u32, u8>, ran: Set<u32>)
    ensures
        aged(prio, ran).dom() == prio.dom(),
        forall|k: u32|
            #[trigger] prio.contains_key(k) ==> {
                &&& !ran.contains(k) && prio[k] < 127 ==> aged(prio, ran)[k] == prio[k] + 1
                &&& prio[k] <= aged(prio, ran)[k] <= prio[k] + 1
                &&& aged(prio, ran)[k] > prio[k] ==> aged(prio, ran)[k] <= 127
                &&& (ran.contains(k) || prio[k] >= 127) ==> aged(prio, ran)[k] == prio[k]
            },
{
    assert(aged(prio, ran).dom() =~= prio.dom());
}

/// The current-layout scheduler inside `borrow`, which must be of the current layout.
pub fn get_scheduler(borrow: &Scheduler) -> (s: &SchedulerA)
    requires
        *borrow is A,
    ensures
        *s == borrow->A_0,
{
    match borrow {
        Scheduler::A(a) => a,
        Scheduler::B(_) => vstd::pervasive::unreached(),
    }
}

/// The current-layout scheduler inside `borrow`, for mutation; `borrow` must be of
/// the current layout.
pub fn get_mut_scheduler(borrow: &mut Scheduler) -> (s: &mut SchedulerA)
    requires
        *old(borrow) is A,
    ensures
        *s == (*old(borrow))->A_0,
        *final(borrow) == Scheduler::A(*final(s)),
{
    match borrow {
        Scheduler::A(a) => a,
        Scheduler::B(_) => vstd::pervasive::unreached(),
    }
}

} // verus!
