//! A fixed-size open-addressing hash table keyed by student identifiers ("ucids"), with
//! linear probing, a collision counter and backward-shift deletion, and a generator of
//! random classes of ucids.
use vstd::prelude::*;

pub mod gap;
pub mod generate;
pub mod heap;
pub mod laws;
pub mod probe;
pub mod tally;
pub mod ucid;

verus! {

} // verus!
