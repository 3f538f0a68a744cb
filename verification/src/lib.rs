use vstd::prelude::*;

pub mod kernel;
pub mod memory;
pub mod performance;
pub mod process;
pub mod scheduler;
pub mod shared_data_cache;
pub mod strlib;

verus! {

} // verus!
