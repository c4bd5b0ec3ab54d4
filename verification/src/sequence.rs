//! Sequence numbers.

use vstd::prelude::*;

verus! {

/// Position of an operation in the sequence of all operations.
pub type SeqNo = u64;

} // verus!
