use vstd::prelude::*;

verus! {

/// A handle on a range of the arena: its first index, with an identifier of
/// the arena's fragmentation state, meant for telling stale handles apart
/// once ranges can be moved.
#[allow(dead_code)]
pub struct Key {
    index: usize,
    state_id: usize,
}

} // verus!
