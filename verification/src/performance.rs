use vstd::prelude::*;

verus! {

/// An earlier performance log layout, kept for migration.
pub struct PerfLogB {}

impl PerfLogB {
    pub fn new() -> (p: PerfLogB) {
        PerfLogB {  }
    }
}

/// An earlier task statistics layout, kept for migration.
pub struct TaskDataB {}

impl TaskDataB {
    pub fn new() -> (t: TaskDataB) {
        TaskDataB {  }
    }
}

/// An earlier per-tick task log layout, kept for migration.
pub struct TaskLogB {}

impl TaskLogB {
    pub fn new() -> (t: TaskLogB) {
        TaskLogB {  }
    }
}

/// Whether the task statistics report their first running average rather than the
/// second. Before 128 samples there is only the first. Afterwards the most
/// reliable figure (`largest`) is the average over more samples and the most
/// recent one is the average over fewer, so the first average is reported exactly
/// when it covers more samples and the most reliable figure is asked for, or it
/// covers no more samples and the most recent figure is asked for.
pub fn task_data_uses_first_range(total: u64, first_count: u8, second_count: u8, largest: bool) -> (first:
    bool)
    ensures
        first == (total <= 127 || ((first_count > second_count) == largest)),
{
    if total > 127 {
        !((first_count > second_count) ^ largest)
    } else {
        true
    }
}

/// The sample counter of a running average after one more sample, and the count
/// that the new sum is divided by: the counter wraps from 255 to 0, and a wrapped
/// counter divides by 256.
pub fn running_average_step(count: u8) -> (r: (u8, u16))
    ensures
        r.0 == (if count == 255 {
            0
        } else {
            count + 1
        }),
        r.1 == count + 1,
{
    let next = count.wrapping_add(1);
    if next == 0 {
        (next, 256)
    } else {
        (next, next as u16)
    }
}

} // verus!
