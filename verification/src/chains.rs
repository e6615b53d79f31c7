//! A rendered chain edge: two consecutive notes of one chain.
use vstd::prelude::*;

use crate::objects::Object;

verus! {

/// Notes in the chain share spawn and destination lanes; this pair is only
/// used to render the bond, the notes themselves are rendered separately.
#[derive(Clone, Copy, Debug)]
pub struct Chain {
    /// The earlier note of the bond.
    pub head: Object,
    /// The later note of the bond.
    pub tail: Object,
}

impl Chain {
    /// A chain edge appears when its head does.
    pub fn spawn_time(&self) -> (t: i64)
        ensures
            t == self.head.spawn_time,
    {
        self.head.spawn_time
    }
}

} // verus!
