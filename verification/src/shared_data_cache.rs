use vstd::prelude::*;

verus! {

/// Cached data that is fine to lose.
pub enum SharedDataCache {
    A(u32),
}

} // verus!
